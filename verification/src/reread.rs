//! Canonical text reads back: what `encoded` writes, the grammar reads as
//! the same structure, up to the positions.
use crate::escape::{escaped, escaped_byte, escaped_bytes, escaped_char, hex_char};
use crate::grammar::{
    action_at, after, after_joined, dashes_end, header_at, headed_segment_at, hex_value,
    is_hex_byte, joined_pieces, more_actions_at, more_segments_at, nonempty_path_at,
    parameter_at, parameters_at, parsed_path, parsed_query, path_at, percent_decoded,
    position_at, query_at, segment_at, word_end, Parsed,
};
use crate::laws::{
    action_in_bounds, dashes_end_in_bounds, header_in_bounds, is_identifier,
    more_segments_in_bounds, parameter_in_bounds, path_in_bounds, query_in_bounds,
    segment_in_bounds, word_end_in_bounds,
};
use crate::query::{
    all_text, all_writable, dashes, encoded_parameters, encoded_path, encoded_segments,
    path_all_text, HeaderModel, ParameterModel, RequestModel, SegmentModel,
};
use crate::text::{is_hex_digit, is_name_start, is_word_char};
use vstd::prelude::*;
use vstd::utf8::{
    encode_scalar, encode_utf8, encode_utf8_decode_utf8, encode_utf8_valid_utf8, is_ascii_chars,
    is_ascii_chars_encode_utf8,
};

verus! {

/// `text` holds `part` from the index `i` on.
pub open spec fn holds_at(text: Seq<char>, i: int, part: Seq<char>) -> bool {
    0 <= i && i + part.len() <= text.len() && text.subrange(i, i + part.len()) == part
}

proof fn holds_both(text: Seq<char>, i: int, a: Seq<char>, b: Seq<char>)
    requires
        holds_at(text, i, a + b),
    ensures
        holds_at(text, i, a),
        holds_at(text, i + a.len(), b),
{
    let whole = text.subrange(i, i + (a + b).len());
    assert(text.subrange(i, i + a.len()) =~= whole.subrange(0, a.len() as int));
    assert(whole.subrange(0, a.len() as int) =~= a);
    assert(text.subrange(i + a.len(), i + a.len() + b.len()) =~= whole.subrange(
        a.len() as int,
        (a + b).len() as int,
    ));
    assert(whole.subrange(a.len() as int, (a + b).len() as int) =~= b);
}

proof fn holds_char(text: Seq<char>, i: int, part: Seq<char>, k: int)
    requires
        holds_at(text, i, part),
        0 <= k < part.len(),
    ensures
        text[i + k] == part[k],
{
    assert(text.subrange(i, i + part.len())[k] == text[i + k]);
}

/// The index `j` is behind a parameter: the text ends there, or the
/// character there starts no piece of a parameter.
pub open spec fn ends_parameter(text: Seq<char>, j: int) -> bool {
    j == text.len() || (0 <= j < text.len() && !is_word_char(text[j]) && text[j] != '~' && text[j]
        != '%')
}

proof fn escaped_bytes_joined(a: Seq<u8>, b: Seq<u8>)
    ensures
        escaped_bytes(a + b) == escaped_bytes(a) + escaped_bytes(b),
    decreases b.len(),
{
    if b.len() == 0 {
        assert(a + b =~= a);
        assert(escaped_bytes(a) + escaped_bytes(b) =~= escaped_bytes(a));
    } else {
        escaped_bytes_joined(a, b.drop_last());
        assert((a + b).drop_last() =~= a + b.drop_last());
        assert((a + b).last() == b.last());
        assert(escaped_bytes(a) + escaped_bytes(b.drop_last()) + escaped_byte(b.last())
            =~= escaped_bytes(a) + (escaped_bytes(b.drop_last()) + escaped_byte(b.last())));
    }
}

proof fn escaped_joined(a: Seq<char>, b: Seq<char>)
    ensures
        escaped(a + b) == escaped(a) + escaped(b),
    decreases b.len(),
{
    if b.len() == 0 {
        assert(a + b =~= a);
        assert(escaped(a) + escaped(b) =~= escaped(a));
    } else {
        escaped_joined(a, b.drop_last());
        assert((a + b).drop_last() =~= a + b.drop_last());
        assert((a + b).last() == b.last());
        assert(escaped(a) + escaped(b.drop_last()) + escaped_char(b.last()) =~= escaped(a) + (
        escaped(b.drop_last()) + escaped_char(b.last())));
    }
}

proof fn escaped_bytes_first(bytes: Seq<u8>)
    requires
        bytes.len() > 0,
    ensures
        escaped_bytes(bytes) == escaped_byte(bytes[0]) + escaped_bytes(bytes.drop_first()),
{
    assert(bytes =~= seq![bytes[0]] + bytes.drop_first());
    escaped_bytes_joined(seq![bytes[0]], bytes.drop_first());
    assert(seq![bytes[0]].drop_last() =~= Seq::<u8>::empty());
    assert(escaped_bytes(Seq::<u8>::empty()) =~= Seq::<char>::empty());
    assert(seq![bytes[0]].last() == bytes[0]);
    assert(escaped_bytes(seq![bytes[0]]) =~= escaped_byte(bytes[0]));
}

proof fn escaped_first(text: Seq<char>)
    requires
        text.len() > 0,
    ensures
        escaped(text) == escaped_char(text[0]) + escaped(text.drop_first()),
{
    assert(text =~= seq![text[0]] + text.drop_first());
    escaped_joined(seq![text[0]], text.drop_first());
    assert(seq![text[0]].drop_last() =~= Seq::<char>::empty());
    assert(escaped(Seq::<char>::empty()) =~= Seq::<char>::empty());
    assert(seq![text[0]].last() == text[0]);
    assert(escaped(seq![text[0]]) =~= escaped_char(text[0]));
}

/// What the pieces of the escaped form of `c` join to: `c` itself where it
/// is written as it is or as an entity, and its percent escapes else.
spec fn kept_char(c: char) -> Seq<char> {
    if is_word_char(c) || c == '~' || c == '-' {
        seq![c]
    } else {
        escaped_bytes(encode_utf8(seq![c]))
    }
}

/// What the pieces of the escaped form of `text` join to.
spec fn kept(text: Seq<char>) -> Seq<char>
    decreases text.len(),
{
    if text.len() == 0 {
        Seq::empty()
    } else {
        kept_char(text[0]) + kept(text.drop_first())
    }
}

proof fn hex_char_is_hex(d: nat)
    requires
        d < 16,
    ensures
        is_hex_digit(hex_char(d)),
        !is_word_char('%'),
        '%' != '~',
{
}

/// The pieces of percent escapes are the escapes as they are.
proof fn pieces_of_escaped_bytes(text: Seq<char>, i: int, bytes: Seq<u8>)
    requires
        holds_at(text, i, escaped_bytes(bytes)),
    ensures
        escaped_bytes(bytes).len() == 3 * bytes.len(),
        joined_pieces(text, i) == after(
            escaped_bytes(bytes),
            joined_pieces(text, i + 3 * bytes.len()),
        ),
    decreases bytes.len(),
{
    if bytes.len() == 0 {
        match joined_pieces(text, i) {
            Parsed::Done(s, e) => {
                assert(Seq::<char>::empty() + s =~= s);
            },
            _ => {},
        }
    } else {
        let b = bytes[0];
        let rest = bytes.drop_first();
        escaped_bytes_first(bytes);
        holds_both(text, i, escaped_byte(b), escaped_bytes(rest));
        holds_char(text, i, escaped_byte(b), 0);
        holds_char(text, i, escaped_byte(b), 1);
        holds_char(text, i, escaped_byte(b), 2);
        hex_char_is_hex((b / 16) as nat);
        hex_char_is_hex((b % 16) as nat);
        pieces_of_escaped_bytes(text, i + 3, rest);
        assert(escaped_byte(b) =~= seq!['%', text[i + 1], text[i + 2]]);
        after_joined(escaped_byte(b), escaped_bytes(rest), joined_pieces(text, i + 3 * bytes.len()));
    }
}

/// The pieces of an escaped text, which a character that starts no piece
/// follows, join to what is kept of the text, and end where the escaped
/// text ends.
proof fn pieces_of_escaped(text: Seq<char>, i: int, content: Seq<char>)
    requires
        holds_at(text, i, escaped(content)),
        ends_parameter(text, i + escaped(content).len()),
    ensures
        joined_pieces(text, i) == Parsed::Done(kept(content), i + escaped(content).len()),
    decreases content.len(),
{
    if content.len() == 0 {
    } else {
        let c = content[0];
        let rest = content.drop_first();
        escaped_first(content);
        holds_both(text, i, escaped_char(c), escaped(rest));
        let n = escaped_char(c).len() as int;
        pieces_of_escaped(text, i + n, rest);
        if is_word_char(c) {
            holds_char(text, i, escaped_char(c), 0);
        } else if c == '~' {
            holds_char(text, i, escaped_char(c), 0);
            holds_char(text, i, escaped_char(c), 1);
        } else if c == '-' {
            holds_char(text, i, escaped_char(c), 0);
            holds_char(text, i, escaped_char(c), 1);
        } else {
            pieces_of_escaped_bytes(text, i, encode_utf8(seq![c]));
        }
    }
}

proof fn encode_joined(a: Seq<char>, b: Seq<char>)
    ensures
        encode_utf8(a + b) == encode_utf8(a) + encode_utf8(b),
    decreases a.len(),
{
    if a.len() == 0 {
        assert(a + b =~= b);
        assert(encode_utf8(a) + encode_utf8(b) =~= encode_utf8(b));
    } else {
        encode_joined(a.drop_first(), b);
        assert((a + b).drop_first() =~= a.drop_first() + b);
        assert((a + b)[0] == a[0]);
        assert(encode_scalar(a[0] as u32) + (encode_utf8(a.drop_first()) + encode_utf8(b))
            =~= (encode_scalar(a[0] as u32) + encode_utf8(a.drop_first())) + encode_utf8(b));
    }
}

proof fn encode_one(c: char)
    ensures
        encode_utf8(seq![c]) == encode_scalar(c as u32),
{
    assert(seq![c].drop_first() =~= Seq::<char>::empty());
    assert(encode_utf8(Seq::<char>::empty()) =~= Seq::<u8>::empty());
    assert(encode_scalar(c as u32) + Seq::<u8>::empty() =~= encode_scalar(c as u32));
}

proof fn high_bytes(x: u8)
    by (bit_vector)
    ensures
        0x80u8 | x >= 0x80u8,
        0xC0u8 | x >= 0x80u8,
        0xE0u8 | x >= 0x80u8,
        0xF0u8 | x >= 0x80u8,
{
}

proof fn low_byte(v: u32)
    by (bit_vector)
    requires
        v <= 0x7F,
    ensures
        (v & 0x7F) as u8 == v,
{
}

/// No byte of the UTF-8 form of a character other than `%` is the byte of `%`.
proof fn bytes_of_plain_char(c: char)
    requires
        c != '%',
    ensures
        forall|k: int|
            0 <= k < encode_scalar(c as u32).len() ==> #[trigger] encode_scalar(c as u32)[k]
                != 0x25,
{
    let v = c as u32;
    if v <= 0x7F {
        low_byte(v);
    } else {
        high_bytes((v & 0x3F) as u8);
        high_bytes(((v >> 6) & 0x3F) as u8);
        high_bytes(((v >> 12) & 0x3F) as u8);
        high_bytes(((v >> 6) & 0x1F) as u8);
        high_bytes(((v >> 12) & 0x0F) as u8);
        high_bytes(((v >> 18) & 0x7) as u8);
    }
}

proof fn percent_decoded_plain(plain: Seq<u8>, rest: Seq<u8>)
    requires
        forall|k: int| 0 <= k < plain.len() ==> #[trigger] plain[k] != 0x25,
    ensures
        percent_decoded(plain + rest) == plain + percent_decoded(rest),
    decreases plain.len(),
{
    if plain.len() == 0 {
        assert(plain + rest =~= rest);
        assert(plain + percent_decoded(rest) =~= percent_decoded(rest));
    } else {
        let whole = plain + rest;
        assert(whole[0] == plain[0]);
        assert(whole.skip(1) =~= plain.skip(1) + rest);
        percent_decoded_plain(plain.skip(1), rest);
        assert(seq![plain[0]] + (plain.skip(1) + percent_decoded(rest)) =~= plain
            + percent_decoded(rest));
    }
}

/// The three bytes that write the percent escape of `b`.
spec fn escape_bytes(b: u8) -> Seq<u8> {
    seq![0x25u8, hex_char((b / 16) as nat) as u8, hex_char((b % 16) as nat) as u8]
}

proof fn hex_digit_value(d: nat)
    requires
        d < 16,
    ensures
        is_hex_byte(hex_char(d) as u8),
        hex_value(hex_char(d) as u8) == d,
        hex_char(d) as u32 <= 0x7f,
{
}

proof fn percent_decoded_escape(b: u8, rest: Seq<u8>)
    ensures
        percent_decoded(escape_bytes(b) + rest) == seq![b] + percent_decoded(rest),
{
    let whole = escape_bytes(b) + rest;
    hex_digit_value((b / 16) as nat);
    hex_digit_value((b % 16) as nat);
    assert(whole[0] == 0x25);
    assert(whole[1] == hex_char((b / 16) as nat) as u8);
    assert(whole[2] == hex_char((b % 16) as nat) as u8);
    assert(whole.skip(3) =~= rest);
    assert((b / 16) * 16 + b % 16 == b);
}

proof fn encode_of_escape(b: u8)
    ensures
        encode_utf8(escaped_byte(b)) == escape_bytes(b),
{
    let e = escaped_byte(b);
    hex_digit_value((b / 16) as nat);
    hex_digit_value((b % 16) as nat);
    assert(is_ascii_chars(e)) by {
        assert forall|i: int| 0 <= i < e.len() implies '\0' <= #[trigger] e[i] <= '\u{7f}' by {
            if i == 0 {
            } else if i == 1 {
            } else {
            }
        }
    }
    is_ascii_chars_encode_utf8(e);
    assert(encode_utf8(e) =~= escape_bytes(b));
}

proof fn decoded_escaped_bytes(bytes: Seq<u8>, rest: Seq<u8>)
    ensures
        percent_decoded(encode_utf8(escaped_bytes(bytes)) + rest) == bytes + percent_decoded(rest),
    decreases bytes.len(),
{
    if bytes.len() == 0 {
        assert(encode_utf8(escaped_bytes(bytes)) + rest =~= rest);
        assert(bytes + percent_decoded(rest) =~= percent_decoded(rest));
    } else {
        let b = bytes[0];
        let tail = bytes.drop_first();
        escaped_bytes_first(bytes);
        encode_joined(escaped_byte(b), escaped_bytes(tail));
        encode_of_escape(b);
        let behind = encode_utf8(escaped_bytes(tail)) + rest;
        assert(encode_utf8(escaped_bytes(bytes)) + rest =~= escape_bytes(b) + behind);
        percent_decoded_escape(b, behind);
        decoded_escaped_bytes(tail, rest);
        assert(seq![b] + (tail + percent_decoded(rest)) =~= bytes + percent_decoded(rest));
    }
}

/// What is kept of a text percent-decodes to the UTF-8 form of the text.
proof fn decoded_kept(content: Seq<char>)
    ensures
        percent_decoded(encode_utf8(kept(content))) == encode_utf8(content),
    decreases content.len(),
{
    if content.len() == 0 {
    } else {
        let c = content[0];
        let rest = content.drop_first();
        decoded_kept(rest);
        encode_joined(kept_char(c), kept(rest));
        encode_one(c);
        if is_word_char(c) || c == '~' || c == '-' {
            bytes_of_plain_char(c);
            percent_decoded_plain(encode_scalar(c as u32), encode_utf8(kept(rest)));
        } else {
            decoded_escaped_bytes(encode_utf8(seq![c]), encode_utf8(kept(rest)));
        }
    }
}

/// An escaped text, which a character that starts no piece follows, is read
/// as the parameter whose content is the text.
pub proof fn parameter_reads_back(text: Seq<char>, i: int, content: Seq<char>)
    requires
        holds_at(text, i, escaped(content)),
        ends_parameter(text, i + escaped(content).len()),
    ensures
        parameter_at(text, i) == Parsed::Done(
            ParameterModel::Text(content, position_at(text, i)),
            i + escaped(content).len(),
        ),
{
    pieces_of_escaped(text, i, content);
    decoded_kept(content);
    encode_utf8_valid_utf8(content);
    encode_utf8_decode_utf8(content);
}

/// Two parameters are the same up to their positions.
pub open spec fn same_parameter(a: ParameterModel, b: ParameterModel) -> bool {
    a.content() == b.content() && (a is Text <==> b is Text)
}

/// Two lists of parameters are the same up to the positions in them.
pub open spec fn same_parameters(a: Seq<ParameterModel>, b: Seq<ParameterModel>) -> bool {
    a.len() == b.len() && forall|k: int| 0 <= k < a.len() ==> same_parameter(#[trigger] a[k], b[k])
}

/// Two requests are the same up to the positions in them.
pub open spec fn same_request(a: RequestModel, b: RequestModel) -> bool {
    a.name == b.name && same_parameters(a.parameters, b.parameters)
}

/// Two paths are the same up to the positions in them.
pub open spec fn same_path(a: Seq<RequestModel>, b: Seq<RequestModel>) -> bool {
    a.len() == b.len() && forall|k: int| 0 <= k < a.len() ==> same_request(#[trigger] a[k], b[k])
}

/// A request as the grammar gives it: its name is an identifier, and each
/// of its parameters is a `Text`.
pub open spec fn readable(request: RequestModel) -> bool {
    is_identifier(request.name) && all_text(request.parameters)
}

/// Every request of the path is readable.
pub open spec fn readable_path(path: Seq<RequestModel>) -> bool {
    forall|k: int| 0 <= k < path.len() ==> readable(#[trigger] path[k])
}

/// The index `j` is behind an action: the text ends there, or a `/` stands there.
spec fn ends_action(text: Seq<char>, j: int) -> bool {
    j == text.len() || (0 <= j < text.len() && text[j] == '/')
}

/// The index `j` is behind a path: the text ends there, or a `/` stands
/// there that no action follows.
spec fn ends_path(text: Seq<char>, j: int) -> bool {
    j == text.len() || (0 <= j < text.len() && text[j] == '/' && action_at(text, j + 1) is Miss)
}

proof fn encoded_parameters_joined(a: Seq<ParameterModel>, b: Seq<ParameterModel>)
    ensures
        encoded_parameters(a + b) == encoded_parameters(a) + encoded_parameters(b),
    decreases b.len(),
{
    if b.len() == 0 {
        assert(a + b =~= a);
        assert(encoded_parameters(a) + encoded_parameters(b) =~= encoded_parameters(a));
    } else {
        encoded_parameters_joined(a, b.drop_last());
        assert((a + b).drop_last() =~= a + b.drop_last());
        assert((a + b).last() == b.last());
        assert(encoded_parameters(a) + encoded_parameters(b.drop_last()) + seq!['-']
            + b.last().encoded() =~= encoded_parameters(a) + (encoded_parameters(b.drop_last())
            + seq!['-'] + b.last().encoded()));
    }
}

proof fn encoded_parameters_first(parameters: Seq<ParameterModel>)
    requires
        parameters.len() > 0,
    ensures
        encoded_parameters(parameters) == seq!['-'] + parameters[0].encoded() + encoded_parameters(
            parameters.drop_first(),
        ),
{
    let first = seq![parameters[0]];
    assert(parameters =~= first + parameters.drop_first());
    encoded_parameters_joined(first, parameters.drop_first());
    assert(first.drop_last() =~= Seq::<ParameterModel>::empty());
    assert(encoded_parameters(Seq::<ParameterModel>::empty()) =~= Seq::<char>::empty());
    assert(first.last() == parameters[0]);
    assert(encoded_parameters(first) =~= seq!['-'] + parameters[0].encoded());
}

/// The written parameters of an action, behind which the action ends, are
/// read as the same parameters.
proof fn parameters_read_back(text: Seq<char>, i: int, parameters: Seq<ParameterModel>)
    requires
        all_text(parameters),
        holds_at(text, i, encoded_parameters(parameters)),
        ends_action(text, i + encoded_parameters(parameters).len()),
    ensures
        parameters_at(text, i) matches Parsed::Done(found, e) && e == i + encoded_parameters(
            parameters,
        ).len() && same_parameters(parameters, found) && all_text(found),
    decreases parameters.len(),
{
    if parameters.len() == 0 {
        assert(parameters_at(text, i) == Parsed::Done(Seq::<ParameterModel>::empty(), i));
    } else {
        let p = parameters[0];
        let rest = parameters.drop_first();
        encoded_parameters_first(parameters);
        let head = seq!['-'] + p.encoded();
        holds_both(text, i, head, encoded_parameters(rest));
        holds_both(text, i, seq!['-'], p.encoded());
        holds_char(text, i, seq!['-'], 0);
        let e = i + 1 + p.encoded().len();
        assert(ends_parameter(text, e)) by {
            if rest.len() > 0 {
                encoded_parameters_first(rest);
                holds_char(text, e, encoded_parameters(rest), 0);
            }
        }
        assert(p is Text);
        parameter_reads_back(text, i + 1, p.content());
        assert(all_text(rest)) by {
            assert forall|k: int| 0 <= k < rest.len() implies (#[trigger] rest[k]) is Text by {
                assert(rest[k] == parameters[k + 1]);
            }
        }
        parameters_read_back(text, e, rest);
        let first = ParameterModel::Text(p.content(), position_at(text, i + 1));
        let found_rest = parameters_at(text, e)->Done_0;
        let found = seq![first] + found_rest;
        assert(parameters_at(text, i) == Parsed::Done(found, i + encoded_parameters(parameters).len()));
        assert(same_parameters(parameters, found)) by {
            assert forall|k: int| 0 <= k < parameters.len() implies same_parameter(
                #[trigger] parameters[k],
                found[k],
            ) by {
                if k > 0 {
                    assert(parameters[k] == rest[k - 1]);
                    assert(found[k] == found_rest[k - 1]);
                }
            }
        }
        assert(all_text(found)) by {
            assert forall|k: int| 0 <= k < found.len() implies (#[trigger] found[k]) is Text by {
                if k > 0 {
                    assert(found[k] == found_rest[k - 1]);
                }
            }
        }
    }
}

proof fn word_run(text: Seq<char>, i: int, n: int)
    requires
        0 <= i,
        0 <= n,
        i + n <= text.len(),
        forall|k: int| i <= k < i + n ==> is_word_char(#[trigger] text[k]),
        i + n == text.len() || !is_word_char(text[i + n]),
    ensures
        word_end(text, i) == i + n,
    decreases n,
{
    if n > 0 {
        word_run(text, i + 1, n - 1);
    }
}

/// A written request, behind which an action ends, is read as the same
/// request.
proof fn action_reads_back(text: Seq<char>, i: int, request: RequestModel)
    requires
        readable(request),
        holds_at(text, i, request.encoded()),
        ends_action(text, i + request.encoded().len()),
    ensures
        action_at(text, i) matches Parsed::Done(found, e) && e == i + request.encoded().len()
            && same_request(request, found) && readable(found),
{
    let name = request.name;
    let n = name.len() as int;
    holds_both(text, i, name, encoded_parameters(request.parameters));
    assert forall|k: int| i <= k < i + n implies is_word_char(#[trigger] text[k]) by {
        holds_char(text, i, name, k - i);
        assert(is_word_char(name[k - i]));
    }
    holds_char(text, i, name, 0);
    assert(i + n == text.len() || !is_word_char(text[i + n])) by {
        if request.parameters.len() > 0 {
            encoded_parameters_first(request.parameters);
            holds_char(text, i + n, encoded_parameters(request.parameters), 0);
        }
    }
    word_run(text, i, n);
    parameters_read_back(text, i + n, request.parameters);
    assert(text.subrange(i, i + n) == name);
}

/// The requests, each behind a `/`.
spec fn slashed(path: Seq<RequestModel>) -> Seq<char>
    decreases path.len(),
{
    if path.len() == 0 {
        Seq::empty()
    } else {
        seq!['/'] + path[0].encoded() + slashed(path.drop_first())
    }
}

proof fn slashed_with_last(path: Seq<RequestModel>, last: RequestModel)
    ensures
        slashed(path.push(last)) == slashed(path) + seq!['/'] + last.encoded(),
    decreases path.len(),
{
    if path.len() == 0 {
        assert(path.push(last).drop_first() =~= Seq::<RequestModel>::empty());
        assert(slashed(Seq::<RequestModel>::empty()) =~= Seq::<char>::empty());
        assert(slashed(path.push(last)) =~= seq!['/'] + last.encoded());
        assert(slashed(path) + seq!['/'] + last.encoded() =~= seq!['/'] + last.encoded());
    } else {
        slashed_with_last(path.drop_first(), last);
        assert(path.push(last).drop_first() =~= path.drop_first().push(last));
        assert(path.push(last)[0] == path[0]);
        assert(seq!['/'] + path[0].encoded() + (slashed(path.drop_first()) + seq!['/']
            + last.encoded()) =~= (seq!['/'] + path[0].encoded() + slashed(path.drop_first()))
            + seq!['/'] + last.encoded());
    }
}

/// The text of a path is that of its first request, and the others, each
/// behind a `/`.
proof fn encoded_path_first(path: Seq<RequestModel>)
    requires
        path.len() > 0,
    ensures
        encoded_path(path) == path[0].encoded() + slashed(path.drop_first()),
    decreases path.len(),
{
    if path.len() == 1 {
        assert(path.drop_first() =~= Seq::<RequestModel>::empty());
        assert(path[0].encoded() + slashed(path.drop_first()) =~= path[0].encoded());
    } else {
        let front = path.drop_last();
        encoded_path_first(front);
        slashed_with_last(front.drop_first(), path.last());
        assert(front.drop_first().push(path.last()) =~= path.drop_first());
        assert(front[0] == path[0]);
        assert(path[0].encoded() + slashed(front.drop_first()) + seq!['/'] + path.last().encoded()
            =~= path[0].encoded() + (slashed(front.drop_first()) + seq!['/']
            + path.last().encoded()));
    }
}

/// The further written requests of a path, behind which the path ends, are
/// read as the same requests.
proof fn more_actions_read_back(text: Seq<char>, i: int, path: Seq<RequestModel>)
    requires
        readable_path(path),
        holds_at(text, i, slashed(path)),
        ends_path(text, i + slashed(path).len()),
    ensures
        more_actions_at(text, i) matches Parsed::Done(found, e) && e == i + slashed(path).len()
            && same_path(path, found) && readable_path(found),
    decreases path.len(),
{
    if path.len() == 0 {
        assert(more_actions_at(text, i) == Parsed::Done(Seq::<RequestModel>::empty(), i));
    } else {
        let r = path[0];
        let rest = path.drop_first();
        let head = seq!['/'] + r.encoded();
        holds_both(text, i, head, slashed(rest));
        holds_both(text, i, seq!['/'], r.encoded());
        holds_char(text, i, seq!['/'], 0);
        let e = i + 1 + r.encoded().len();
        assert(ends_action(text, e)) by {
            if rest.len() > 0 {
                holds_char(text, e, slashed(rest), 0);
            }
        }
        assert(readable(r));
        action_reads_back(text, i + 1, r);
        assert(readable_path(rest)) by {
            assert forall|k: int| 0 <= k < rest.len() implies readable(#[trigger] rest[k]) by {
                assert(rest[k] == path[k + 1]);
            }
        }
        more_actions_read_back(text, e, rest);
        let first = action_at(text, i + 1)->Done_0;
        let found_rest = more_actions_at(text, e)->Done_0;
        let found = seq![first] + found_rest;
        assert(is_identifier(r.name));
        assert(more_actions_at(text, i) == Parsed::Done(found, i + slashed(path).len()));
        assert(same_path(path, found)) by {
            assert forall|k: int| 0 <= k < path.len() implies same_request(
                #[trigger] path[k],
                found[k],
            ) by {
                if k > 0 {
                    assert(path[k] == rest[k - 1]);
                    assert(found[k] == found_rest[k - 1]);
                }
            }
        }
        assert(readable_path(found)) by {
            assert forall|k: int| 0 <= k < found.len() implies readable(#[trigger] found[k]) by {
                if k > 0 {
                    assert(found[k] == found_rest[k - 1]);
                }
            }
        }
    }
}

/// A written path with a request at least, behind which the path ends, is
/// read as the same path.
proof fn path_reads_back(text: Seq<char>, i: int, path: Seq<RequestModel>)
    requires
        path.len() > 0,
        readable_path(path),
        holds_at(text, i, encoded_path(path)),
        ends_path(text, i + encoded_path(path).len()),
    ensures
        nonempty_path_at(text, i) matches Parsed::Done(found, e) && e == i + encoded_path(
            path,
        ).len() && same_path(path, found) && readable_path(found),
{
    let r = path[0];
    let rest = path.drop_first();
    encoded_path_first(path);
    holds_both(text, i, r.encoded(), slashed(rest));
    let e = i + r.encoded().len();
    assert(ends_action(text, e)) by {
        if rest.len() > 0 {
            holds_char(text, e, slashed(rest), 0);
        }
    }
    assert(readable(r));
    action_reads_back(text, i, r);
    assert(readable_path(rest)) by {
        assert forall|k: int| 0 <= k < rest.len() implies readable(#[trigger] rest[k]) by {
            assert(rest[k] == path[k + 1]);
        }
    }
    more_actions_read_back(text, e, rest);
    let first = action_at(text, i)->Done_0;
    let found_rest = more_actions_at(text, e)->Done_0;
    let found = seq![first] + found_rest;
    assert(nonempty_path_at(text, i) == Parsed::Done(found, i + encoded_path(path).len()));
    assert(same_path(path, found)) by {
        assert forall|k: int| 0 <= k < path.len() implies same_request(
            #[trigger] path[k],
            found[k],
        ) by {
            if k > 0 {
                assert(path[k] == rest[k - 1]);
                assert(found[k] == found_rest[k - 1]);
            }
        }
    }
    assert(readable_path(found)) by {
        assert forall|k: int| 0 <= k < found.len() implies readable(#[trigger] found[k]) by {
            if k > 0 {
                assert(found[k] == found_rest[k - 1]);
            }
        }
    }
}

proof fn word_run_chars(text: Seq<char>, i: int)
    requires
        0 <= i <= text.len(),
    ensures
        forall|k: int| i <= k < word_end(text, i) ==> is_word_char(#[trigger] text[k]),
    decreases text.len() - i,
{
    if i < text.len() && is_word_char(text[i]) {
        word_run_chars(text, i + 1);
    }
}

/// The parameters that the grammar gives are `Text`s.
proof fn parsed_parameters_are_text(text: Seq<char>, i: int)
    requires
        0 <= i <= text.len(),
    ensures
        parameters_at(text, i) matches Parsed::Done(found, _) ==> all_text(found),
    decreases text.len() - i,
{
    if i < text.len() && text[i] == '-' {
        parameter_in_bounds(text, i + 1);
        match parameter_at(text, i + 1) {
            Parsed::Done(p, e) => {
                parsed_parameters_are_text(text, e);
                match parameters_at(text, e) {
                    Parsed::Done(rest, _) => {
                        let found = seq![p] + rest;
                        assert forall|k: int| 0 <= k < found.len() implies (
                        #[trigger] found[k]) is Text by {
                            if k > 0 {
                                assert(found[k] == rest[k - 1]);
                            }
                        }
                    },
                    _ => {},
                }
            },
            _ => {},
        }
    }
}

/// The request that the grammar gives is readable.
proof fn parsed_action_is_readable(text: Seq<char>, i: int)
    requires
        0 <= i <= text.len(),
    ensures
        action_at(text, i) matches Parsed::Done(found, _) ==> readable(found),
{
    if i < text.len() && is_name_start(text[i]) {
        let n = word_end(text, i);
        word_end_in_bounds(text, i + 1);
        word_run_chars(text, i);
        parsed_parameters_are_text(text, n);
        let name = text.subrange(i, n);
        assert forall|k: int| 0 <= k < name.len() implies is_word_char(#[trigger] name[k]) by {
            assert(name[k] == text[i + k]);
        }
    }
}

proof fn parsed_more_actions_are_readable(text: Seq<char>, i: int)
    requires
        0 <= i <= text.len(),
    ensures
        more_actions_at(text, i) matches Parsed::Done(found, _) ==> readable_path(found),
    decreases text.len() - i,
{
    if i < text.len() && text[i] == '/' {
        action_in_bounds(text, i + 1);
        parsed_action_is_readable(text, i + 1);
        match action_at(text, i + 1) {
            Parsed::Done(a, e) => {
                parsed_more_actions_are_readable(text, e);
                match more_actions_at(text, e) {
                    Parsed::Done(rest, _) => {
                        let found = seq![a] + rest;
                        assert forall|k: int| 0 <= k < found.len() implies readable(
                            #[trigger] found[k],
                        ) by {
                            if k > 0 {
                                assert(found[k] == rest[k - 1]);
                            }
                        }
                    },
                    _ => {},
                }
            },
            _ => {},
        }
    }
}

/// The path that the grammar gives is readable.
proof fn parsed_path_is_readable(text: Seq<char>, i: int)
    requires
        0 <= i <= text.len(),
    ensures
        nonempty_path_at(text, i) matches Parsed::Done(found, _) ==> readable_path(found)
            && found.len() > 0,
        path_at(text, i) matches Parsed::Done(found, _) ==> readable_path(found),
{
    action_in_bounds(text, i);
    parsed_action_is_readable(text, i);
    match action_at(text, i) {
        Parsed::Done(a, e) => {
            parsed_more_actions_are_readable(text, e);
            match more_actions_at(text, e) {
                Parsed::Done(rest, _) => {
                    let found = seq![a] + rest;
                    assert forall|k: int| 0 <= k < found.len() implies readable(
                        #[trigger] found[k],
                    ) by {
                        if k > 0 {
                            assert(found[k] == rest[k - 1]);
                        }
                    }
                },
                _ => {},
            }
        },
        _ => {},
    }
}

/// A readable path, written, parses to the same path.
pub proof fn written_path_parses_back(path: Seq<RequestModel>)
    requires
        readable_path(path),
    ensures
        parsed_path(encoded_path(path)) matches Ok(again) && same_path(path, again),
{
    let text = encoded_path(path);
    if path.len() == 0 {
    } else {
        assert(text.subrange(0, text.len() as int) =~= text);
        path_reads_back(text, 0, path);
    }
}

/// A text that parses as a path reads back: the path, written in its
/// canonical form, parses again, and to the same path up to the positions.
pub proof fn parsed_path_reads_back(text: Seq<char>)
    requires
        parsed_path(text) is Ok,
    ensures
        parsed_path(encoded_path(parsed_path(text)->Ok_0)) matches Ok(again) && same_path(
            parsed_path(text)->Ok_0,
            again,
        ),
{
    parsed_path_is_readable(text, 0);
    path_in_bounds(text, 0);
    written_path_parses_back(parsed_path(text)->Ok_0);
}

/// Two headers are the same up to the positions in them.
pub open spec fn same_header(a: HeaderModel, b: HeaderModel) -> bool {
    a.name == b.name && a.level == b.level && same_parameters(a.parameters, b.parameters)
}

/// Two segments are the same up to the positions in them.
pub open spec fn same_segment(a: SegmentModel, b: SegmentModel) -> bool {
    &&& same_path(a.path, b.path)
    &&& match a.header {
        Some(h) => b.header matches Some(g) && same_header(h, g),
        None => b.header is None,
    }
}

/// Two queries are the same up to the positions in them.
pub open spec fn same_query(a: Seq<SegmentModel>, b: Seq<SegmentModel>) -> bool {
    a.len() == b.len() && forall|k: int| 0 <= k < a.len() ==> same_segment(#[trigger] a[k], b[k])
}

/// A header as the grammar gives it: its level is 1 at least; it has a
/// name, which is an identifier, and parameters, which are `Text`s, or
/// neither.
pub open spec fn readable_header(header: HeaderModel) -> bool {
    &&& header.level >= 1
    &&& all_text(header.parameters)
    &&& if header.name.len() == 0 {
        header.parameters.len() == 0
    } else {
        is_identifier(header.name)
    }
}

/// A segment as the grammar gives it: a readable header, or a path that is
/// not empty, or both; and the path is readable.
pub open spec fn readable_segment(segment: SegmentModel) -> bool {
    &&& readable_path(segment.path)
    &&& match segment.header {
        Some(h) => readable_header(h),
        None => segment.path.len() > 0,
    }
}

/// The segment is a header and nothing else.
pub open spec fn is_bare_header(segment: SegmentModel) -> bool {
    segment.header is Some && segment.path.len() == 0
}

/// Every segment but the last has a path.
pub open spec fn bare_header_only_last(query: Seq<SegmentModel>) -> bool {
    forall|k: int| 0 <= k < query.len() - 1 ==> !is_bare_header(#[trigger] query[k])
}

/// Every segment has a header.
pub open spec fn all_headed(query: Seq<SegmentModel>) -> bool {
    forall|k: int| 0 <= k < query.len() ==> (#[trigger] query[k]).header is Some
}

/// Every segment is readable.
pub open spec fn readable_segments(query: Seq<SegmentModel>) -> bool {
    forall|k: int| 0 <= k < query.len() ==> readable_segment(#[trigger] query[k])
}

/// A query whose canonical text the grammar reads as the same query: its
/// segments are readable, only the first may be without a header, and only
/// the last may be a header and nothing else.
pub open spec fn readable_query(query: Seq<SegmentModel>) -> bool {
    &&& readable_segments(query)
    &&& bare_header_only_last(query)
    &&& query.len() > 0 ==> all_headed(query.drop_first())
}

proof fn dash_run(text: Seq<char>, i: int, n: int)
    requires
        0 <= i,
        0 <= n,
        i + n <= text.len(),
        forall|k: int| i <= k < i + n ==> #[trigger] text[k] == '-',
        i + n == text.len() || text[i + n] != '-',
    ensures
        dashes_end(text, i) == i + n,
    decreases n,
{
    if n > 0 {
        dash_run(text, i + 1, n - 1);
    }
}

/// A written header, behind which the text ends or a `/` stands, is read as
/// the same header.
proof fn header_reads_back(text: Seq<char>, i: int, header: HeaderModel)
    requires
        readable_header(header),
        holds_at(text, i, header.encoded()),
        ends_action(text, i + header.encoded().len()),
    ensures
        header_at(text, i) matches Parsed::Done(found, e) && e == i + header.encoded().len()
            && same_header(header, found) && readable_header(found),
{
    let level = header.level as int;
    let request = RequestModel {
        name: header.name,
        position: header.position,
        parameters: header.parameters,
    };
    let front = dashes(header.level);
    assert(header.encoded() =~= front + request.encoded());
    holds_both(text, i, front, request.encoded());
    assert forall|k: int| i <= k < i + level implies #[trigger] text[k] == '-' by {
        holds_char(text, i, front, k - i);
    }
    let d = i + level;
    if header.name.len() == 0 {
        assert(request.encoded() =~= Seq::<char>::empty());
        dash_run(text, i, level);
        assert(action_at(text, d) is Miss);
        assert(header_at(text, i)->Done_0.parameters =~= header.parameters);
    } else {
        holds_both(text, d, header.name, encoded_parameters(header.parameters));
        holds_char(text, d, header.name, 0);
        dash_run(text, i, level);
        action_reads_back(text, d, request);
    }
}

/// The index `j` is behind the segment: behind a header and nothing else
/// the text ends; else a path ends there.
spec fn ends_segment(text: Seq<char>, j: int, segment: SegmentModel) -> bool {
    if is_bare_header(segment) {
        j == text.len()
    } else {
        ends_path(text, j)
    }
}

/// A written segment, behind which the segment ends, is read as the same
/// segment.
#[verifier::rlimit(60)]
proof fn segment_reads_back(text: Seq<char>, i: int, segment: SegmentModel)
    requires
        readable_segment(segment),
        holds_at(text, i, segment.encoded()),
        ends_segment(text, i + segment.encoded().len(), segment),
    ensures
        segment_at(text, i) matches Parsed::Done(found, e) && e == i + segment.encoded().len()
            && same_segment(segment, found) && readable_segment(found),
{
    let path = segment.path;
    let written = encoded_path(path);
    if path.len() > 0 {
        encoded_path_first(path);
        assert(is_identifier(path[0].name));
        assert(written.len() > 0);
        assert(written[0] == path[0].name[0]);
    }
    match segment.header {
        Some(h) => {
            if path.len() == 0 {
                header_reads_back(text, i, h);
                let found = SegmentModel {
                    header: Some(header_at(text, i)->Done_0),
                    path: Seq::<RequestModel>::empty(),
                };
                assert(headed_segment_at(text, i) == Parsed::Done(
                    found,
                    i + segment.encoded().len(),
                ));
            } else {
                let front = h.encoded() + seq!['/'];
                assert(segment.encoded() =~= front + written);
                holds_both(text, i, front, written);
                holds_both(text, i, h.encoded(), seq!['/']);
                let e = i + h.encoded().len();
                holds_char(text, e, seq!['/'], 0);
                header_reads_back(text, i, h);
                path_reads_back(text, e + 1, path);
            }
        },
        None => {
            holds_char(text, i, written, 0);
            assert(header_at(text, i) is Miss);
            path_reads_back(text, i, path);
        },
    }
}

/// The segments, each behind a `/`.
spec fn slashed_segments(query: Seq<SegmentModel>) -> Seq<char>
    decreases query.len(),
{
    if query.len() == 0 {
        Seq::empty()
    } else {
        seq!['/'] + query[0].encoded() + slashed_segments(query.drop_first())
    }
}

proof fn slashed_segments_with_last(query: Seq<SegmentModel>, last: SegmentModel)
    ensures
        slashed_segments(query.push(last)) == slashed_segments(query) + seq!['/'] + last.encoded(),
    decreases query.len(),
{
    if query.len() == 0 {
        assert(query.push(last).drop_first() =~= Seq::<SegmentModel>::empty());
        assert(slashed_segments(Seq::<SegmentModel>::empty()) =~= Seq::<char>::empty());
        assert(slashed_segments(query.push(last)) =~= seq!['/'] + last.encoded());
        assert(slashed_segments(query) + seq!['/'] + last.encoded() =~= seq!['/']
            + last.encoded());
    } else {
        slashed_segments_with_last(query.drop_first(), last);
        assert(query.push(last).drop_first() =~= query.drop_first().push(last));
        assert(query.push(last)[0] == query[0]);
        assert(seq!['/'] + query[0].encoded() + (slashed_segments(query.drop_first()) + seq!['/']
            + last.encoded()) =~= (seq!['/'] + query[0].encoded() + slashed_segments(
            query.drop_first(),
        )) + seq!['/'] + last.encoded());
    }
}

/// The text of a query is that of its first segment, and the others, each
/// behind a `/`.
proof fn encoded_segments_first(query: Seq<SegmentModel>)
    requires
        query.len() > 0,
    ensures
        encoded_segments(query) == query[0].encoded() + slashed_segments(query.drop_first()),
    decreases query.len(),
{
    if query.len() == 1 {
        assert(query.drop_first() =~= Seq::<SegmentModel>::empty());
        assert(query[0].encoded() + slashed_segments(query.drop_first()) =~= query[0].encoded());
    } else {
        let front = query.drop_last();
        encoded_segments_first(front);
        slashed_segments_with_last(front.drop_first(), query.last());
        assert(front.drop_first().push(query.last()) =~= query.drop_first());
        assert(front[0] == query[0]);
        assert(query[0].encoded() + slashed_segments(front.drop_first()) + seq!['/']
            + query.last().encoded() =~= query[0].encoded() + (slashed_segments(
            front.drop_first(),
        ) + seq!['/'] + query.last().encoded()));
    }
}

/// The text of a segment with a header starts with `-`.
proof fn headed_segment_starts_with_dash(segment: SegmentModel)
    requires
        readable_segment(segment),
        segment.header is Some,
    ensures
        segment.encoded().len() > 0,
        segment.encoded()[0] == '-',
{
    let h = segment.header->Some_0;
    assert(dashes(h.level)[0] == '-');
    assert(h.encoded()[0] == '-');
}

/// The index behind a segment that segments with headers follow, each
/// behind a `/`, or nothing, ends the segment.
proof fn segment_ends_before(text: Seq<char>, j: int, segment: SegmentModel, rest: Seq<SegmentModel>)
    requires
        readable_segments(rest),
        all_headed(rest),
        rest.len() > 0 ==> !is_bare_header(segment),
        holds_at(text, j, slashed_segments(rest)),
        j + slashed_segments(rest).len() == text.len(),
    ensures
        ends_segment(text, j, segment),
{
    if rest.len() > 0 {
        let next = rest[0];
        assert(readable_segment(next));
        headed_segment_starts_with_dash(next);
        let head = seq!['/'] + next.encoded();
        holds_both(text, j, head, slashed_segments(rest.drop_first()));
        holds_both(text, j, seq!['/'], next.encoded());
        holds_char(text, j, seq!['/'], 0);
        holds_char(text, j + 1, next.encoded(), 0);
        assert(action_at(text, j + 1) is Miss);
    }
}

proof fn same_query_with_first(
    s: SegmentModel,
    rest: Seq<SegmentModel>,
    first: SegmentModel,
    found_rest: Seq<SegmentModel>,
)
    requires
        same_segment(s, first),
        same_query(rest, found_rest),
    ensures
        same_query(seq![s] + rest, seq![first] + found_rest),
{
    let query = seq![s] + rest;
    let found = seq![first] + found_rest;
    assert forall|k: int| 0 <= k < query.len() implies same_segment(#[trigger] query[k], found[k]) by {
        if k > 0 {
            assert(query[k] == rest[k - 1]);
            assert(found[k] == found_rest[k - 1]);
        }
    }
}

/// What holds of a query holds of what is left without its first segment.
proof fn rest_of_query(query: Seq<SegmentModel>)
    requires
        query.len() > 0,
        readable_segments(query),
        bare_header_only_last(query),
    ensures
        readable_segment(query[0]),
        readable_segments(query.drop_first()),
        bare_header_only_last(query.drop_first()),
        query.len() > 1 ==> !is_bare_header(query[0]),
        all_headed(query) ==> all_headed(query.drop_first()),
{
    let rest = query.drop_first();
    assert forall|k: int| 0 <= k < rest.len() implies readable_segment(#[trigger] rest[k]) by {
        assert(rest[k] == query[k + 1]);
    }
    assert forall|k: int| 0 <= k < rest.len() - 1 implies !is_bare_header(#[trigger] rest[k]) by {
        assert(rest[k] == query[k + 1]);
    }
    if all_headed(query) {
        assert forall|k: int| 0 <= k < rest.len() implies (#[trigger] rest[k]).header is Some by {
            assert(rest[k] == query[k + 1]);
        }
    }
}

proof fn more_segments_step(text: Seq<char>, i: int)
    requires
        0 <= i < text.len(),
        text[i] == '/',
        segment_at(text, i + 1) matches Parsed::Done(_, e) && i < e <= text.len()
            && more_segments_at(text, e) is Done,
    ensures
        more_segments_at(text, i) == Parsed::Done(
            seq![segment_at(text, i + 1)->Done_0] + more_segments_at(
                text,
                segment_at(text, i + 1)->Done_1,
            )->Done_0,
            more_segments_at(text, segment_at(text, i + 1)->Done_1)->Done_1,
        ),
{
}

/// The further written segments of a query, which all have headers and of
/// which only the last may be a header and nothing else, are read to the
/// end of the text as the same segments.
#[verifier::rlimit(60)]
proof fn more_segments_read_back(text: Seq<char>, i: int, query: Seq<SegmentModel>)
    requires
        readable_segments(query),
        all_headed(query),
        bare_header_only_last(query),
        holds_at(text, i, slashed_segments(query)),
        i + slashed_segments(query).len() == text.len(),
    ensures
        more_segments_at(text, i) matches Parsed::Done(found, e) && e == text.len() && same_query(
            query,
            found,
        ),
    decreases query.len(),
{
    if query.len() == 0 {
        assert(more_segments_at(text, i) == Parsed::Done(Seq::<SegmentModel>::empty(), i));
    } else {
        let s = query[0];
        let rest = query.drop_first();
        let e = i + 1 + s.encoded().len();
        rest_of_query(query);
        assert(text[i] == '/' && holds_at(text, i + 1, s.encoded()) && holds_at(
            text,
            e,
            slashed_segments(rest),
        )) by {
            let head = seq!['/'] + s.encoded();
            holds_both(text, i, head, slashed_segments(rest));
            holds_both(text, i, seq!['/'], s.encoded());
            holds_char(text, i, seq!['/'], 0);
        }
        assert(ends_segment(text, e, s)) by {
            segment_ends_before(text, e, s, rest);
        }
        segment_reads_back(text, i + 1, s);
        more_segments_read_back(text, e, rest);
        let first = segment_at(text, i + 1)->Done_0;
        let found_rest = more_segments_at(text, e)->Done_0;
        more_segments_step(text, i);
        same_query_with_first(s, rest, first, found_rest);
        assert(seq![s] + rest =~= query);
    }
}

/// The text of a query holds that of its first segment at its start, and
/// behind it the others, each behind a `/`, to its end.
proof fn written_query_layout(query: Seq<SegmentModel>)
    requires
        query.len() > 0,
    ensures
        holds_at(encoded_segments(query), 0, query[0].encoded()),
        holds_at(
            encoded_segments(query),
            query[0].encoded().len() as int,
            slashed_segments(query.drop_first()),
        ),
        query[0].encoded().len() + slashed_segments(query.drop_first()).len() == encoded_segments(
            query,
        ).len(),
{
    let text = encoded_segments(query);
    encoded_segments_first(query);
    assert(text.subrange(0, text.len() as int) =~= text);
    holds_both(text, 0, query[0].encoded(), slashed_segments(query.drop_first()));
}

/// The segments of a readable query, written, are read one by one as the
/// same segments, to the end of the text.
proof fn written_segments_are_read(query: Seq<SegmentModel>)
    requires
        query.len() > 0,
        readable_query(query),
    ensures
        segment_at(encoded_segments(query), 0) matches Parsed::Done(first, e) && same_segment(
            query[0],
            first,
        ) && (more_segments_at(encoded_segments(query), e) matches Parsed::Done(found, end) && end
            == encoded_segments(query).len() && same_query(query.drop_first(), found)),
{
    let text = encoded_segments(query);
    let s = query[0];
    let rest = query.drop_first();
    let e = s.encoded().len() as int;
    rest_of_query(query);
    written_query_layout(query);
    assert(ends_segment(text, e, s)) by {
        segment_ends_before(text, e, s, rest);
    }
    segment_reads_back(text, 0, s);
    more_segments_read_back(text, e, rest);
}

/// A readable query, written, parses to the same query.
pub proof fn written_query_parses_back(query: Seq<SegmentModel>)
    requires
        readable_query(query),
    ensures
        parsed_query(encoded_segments(query)) matches Ok(again) && same_query(query, again),
{
    let text = encoded_segments(query);
    if query.len() > 0 {
        written_segments_are_read(query);
        let first = segment_at(text, 0)->Done_0;
        let e = segment_at(text, 0)->Done_1;
        let found = more_segments_at(text, e)->Done_0;
        same_query_with_first(query[0], query.drop_first(), first, found);
        assert(seq![query[0]] + query.drop_first() =~= query);
    }
}

/// The header that the grammar gives is readable.
proof fn parsed_header_is_readable(text: Seq<char>, i: int)
    requires
        0 <= i <= text.len(),
    ensures
        header_at(text, i) matches Parsed::Done(found, _) ==> readable_header(found),
{
    if i < text.len() && text[i] == '-' {
        dashes_end_in_bounds(text, i + 1);
        parsed_action_is_readable(text, dashes_end(text, i));
    }
}

/// The segment that the grammar gives is readable.
proof fn parsed_segment_is_readable(text: Seq<char>, i: int)
    requires
        0 <= i <= text.len(),
    ensures
        segment_at(text, i) matches Parsed::Done(found, _) ==> readable_segment(found),
{
    header_in_bounds(text, i);
    parsed_header_is_readable(text, i);
    parsed_path_is_readable(text, i);
    match header_at(text, i) {
        Parsed::Done(h, e) => {
            if e < text.len() && text[e] == '/' {
                parsed_path_is_readable(text, e + 1);
            }
        },
        _ => {},
    }
}

/// No action stands behind a `/` at the index `j`.
spec fn no_action_behind(text: Seq<char>, j: int) -> bool {
    !(0 <= j < text.len() && text[j] == '/' && !(action_at(text, j + 1) is Miss))
}

proof fn more_actions_stop(text: Seq<char>, i: int)
    requires
        0 <= i <= text.len(),
    ensures
        more_actions_at(text, i) matches Parsed::Done(_, e) ==> no_action_behind(text, e),
    decreases text.len() - i,
{
    if i < text.len() && text[i] == '/' {
        action_in_bounds(text, i + 1);
        match action_at(text, i + 1) {
            Parsed::Done(a, e) => {
                more_actions_stop(text, e);
            },
            _ => {},
        }
    }
}

proof fn path_stops(text: Seq<char>, i: int)
    requires
        0 <= i <= text.len(),
    ensures
        nonempty_path_at(text, i) matches Parsed::Done(_, e) ==> no_action_behind(text, e),
{
    action_in_bounds(text, i);
    match action_at(text, i) {
        Parsed::Done(a, e) => {
            more_actions_stop(text, e);
        },
        _ => {},
    }
}

/// Behind a segment with a path that the grammar gives, no action stands
/// behind a `/`: the path would have taken it.
proof fn segment_stops(text: Seq<char>, i: int)
    requires
        0 <= i <= text.len(),
    ensures
        segment_at(text, i) matches Parsed::Done(found, e) ==> is_bare_header(found)
            || no_action_behind(text, e),
{
    header_in_bounds(text, i);
    path_stops(text, i);
    match header_at(text, i) {
        Parsed::Done(h, e) => {
            if e < text.len() && text[e] == '/' {
                path_stops(text, e + 1);
            }
        },
        _ => {},
    }
}

proof fn bare_header_only_last_rest(first: SegmentModel, rest: Seq<SegmentModel>)
    requires
        bare_header_only_last(seq![first] + rest),
    ensures
        bare_header_only_last(rest),
        rest.len() > 0 ==> !is_bare_header(first),
{
    let query = seq![first] + rest;
    assert forall|k: int| 0 <= k < rest.len() - 1 implies !is_bare_header(#[trigger] rest[k]) by {
        assert(rest[k] == query[k + 1]);
    }
    if rest.len() > 0 {
        assert(query[0] == first);
    }
}

/// The further segments that the grammar gives behind a segment with a
/// path all have headers, and are readable.
proof fn parsed_more_segments_are_headed(text: Seq<char>, i: int)
    requires
        0 <= i <= text.len(),
        no_action_behind(text, i),
        more_segments_at(text, i) matches Parsed::Done(found, _) && bare_header_only_last(found),
    ensures
        more_segments_at(text, i) matches Parsed::Done(found, _) && all_headed(found)
            && readable_segments(found),
    decreases text.len() - i,
{
    if i < text.len() && text[i] == '/' {
        segment_in_bounds(text, i + 1);
        parsed_segment_is_readable(text, i + 1);
        segment_stops(text, i + 1);
        match segment_at(text, i + 1) {
            Parsed::Done(s, e) => {
                more_segments_in_bounds(text, e);
                let rest = more_segments_at(text, e)->Done_0;
                let found = seq![s] + rest;
                bare_header_only_last_rest(s, rest);
                if rest.len() > 0 {
                    parsed_more_segments_are_headed(text, e);
                } else {
                    assert(i + 1 <= e);
                }
                assert forall|k: int| 0 <= k < found.len() implies (
                #[trigger] found[k]).header is Some && readable_segment(found[k]) by {
                    if k > 0 {
                        assert(found[k] == rest[k - 1]);
                    }
                }
            },
            _ => {},
        }
    }
}

/// The query that the grammar gives, if only its last segment may be a
/// header and nothing else, is readable.
proof fn parsed_query_is_readable(text: Seq<char>)
    requires
        parsed_query(text) matches Ok(query) && bare_header_only_last(query),
    ensures
        parsed_query(text) matches Ok(query) && readable_query(query),
{
    query_in_bounds(text, 0);
    segment_in_bounds(text, 0);
    parsed_segment_is_readable(text, 0);
    segment_stops(text, 0);
    match segment_at(text, 0) {
        Parsed::Done(s, e) => {
            more_segments_in_bounds(text, e);
            let rest = more_segments_at(text, e)->Done_0;
            let query = seq![s] + rest;
            bare_header_only_last_rest(s, rest);
            if rest.len() > 0 {
                parsed_more_segments_are_headed(text, e);
            }
            assert(query.drop_first() =~= rest);
            assert forall|k: int| 0 <= k < query.len() implies readable_segment(
                #[trigger] query[k],
            ) by {
                if k > 0 {
                    assert(query[k] == rest[k - 1]);
                }
            }
        },
        _ => {},
    }
}

/// A text that parses as a query reads back, if only the last of its
/// segments may be a header and nothing else: the query, written in its
/// canonical form, parses again, and to the same query up to the positions.
///
/// Where a header and nothing else stands in front of another segment, as
/// in `-a//b`, the canonical text `-a/b` is one segment, not two.
pub proof fn parsed_query_reads_back(text: Seq<char>)
    requires
        parsed_query(text) matches Ok(query) && bare_header_only_last(query),
    ensures
        parsed_query(encoded_segments(parsed_query(text)->Ok_0)) matches Ok(again) && same_query(
            parsed_query(text)->Ok_0,
            again,
        ),
{
    parsed_query_is_readable(text);
    written_query_parses_back(parsed_query(text)->Ok_0);
}

proof fn parsed_more_segments_are_readable(text: Seq<char>, i: int)
    requires
        0 <= i <= text.len(),
    ensures
        more_segments_at(text, i) matches Parsed::Done(found, _) ==> readable_segments(found),
    decreases text.len() - i,
{
    if i < text.len() && text[i] == '/' {
        segment_in_bounds(text, i + 1);
        parsed_segment_is_readable(text, i + 1);
        match segment_at(text, i + 1) {
            Parsed::Done(s, e) => {
                parsed_more_segments_are_readable(text, e);
                match more_segments_at(text, e) {
                    Parsed::Done(rest, _) => {
                        let found = seq![s] + rest;
                        assert forall|k: int| 0 <= k < found.len() implies readable_segment(
                            #[trigger] found[k],
                        ) by {
                            if k > 0 {
                                assert(found[k] == rest[k - 1]);
                            }
                        }
                    },
                    _ => {},
                }
            },
            _ => {},
        }
    }
}

/// What the grammar gives is well formed: the level of a header is 1 at
/// least, a name is an identifier, a header without a name has no
/// parameter, every parameter is a `Text`, and a segment without a header
/// has a path that is not empty.
pub proof fn parsed_query_is_well_formed(text: Seq<char>)
    ensures
        query_at(text, 0) matches Parsed::Done(query, _) ==> readable_segments(query),
        path_at(text, 0) matches Parsed::Done(path, _) ==> readable_path(path),
{
    segment_in_bounds(text, 0);
    parsed_segment_is_readable(text, 0);
    parsed_path_is_readable(text, 0);
    match segment_at(text, 0) {
        Parsed::Done(s, e) => {
            parsed_more_segments_are_readable(text, e);
            match more_segments_at(text, e) {
                Parsed::Done(rest, _) => {
                    let found = seq![s] + rest;
                    assert forall|k: int| 0 <= k < found.len() implies readable_segment(
                        #[trigger] found[k],
                    ) by {
                        if k > 0 {
                            assert(found[k] == rest[k - 1]);
                        }
                    }
                },
                _ => {},
            }
        },
        _ => {},
    }
}

/// What is well formed can be written.
pub proof fn well_formed_is_writable(query: Seq<SegmentModel>)
    requires
        readable_segments(query),
    ensures
        all_writable(query),
{
    assert forall|k: int| 0 <= k < query.len() implies (#[trigger] query[k]).writable() by {
        let s = query[k];
        assert(readable_segment(s));
        assert forall|j: int| 0 <= j < s.path.len() implies all_text(
            (#[trigger] s.path[j]).parameters,
        ) by {
            assert(readable(s.path[j]));
        }
    }
}

/// A path that is well formed can be written.
pub proof fn readable_path_is_writable(path: Seq<RequestModel>)
    requires
        readable_path(path),
    ensures
        path_all_text(path),
{
    assert forall|j: int| 0 <= j < path.len() implies all_text((#[trigger] path[j]).parameters) by {
        assert(readable(path[j]));
    }
}

} // verus!
