//! What holds of the grammar for every text.
use crate::error::ErrorModel;
use crate::grammar::{
    action_at, dashes_end, header_at, headed_segment_at, joined_pieces, more_actions_at,
    more_segments_at, nonempty_path_at, parameter_at, parameters_at, parsed_path, parsed_query,
    path_at, position_at, query_at, segment_at, utf8_length, utf8_width, word_end, Fault,
    Parsed,
};
use crate::query::{RequestModel, SegmentModel};
use crate::text::{is_hex_digit, is_name_start, is_word_char};
use vstd::prelude::*;
use vstd::utf8::{char_is_scalar, encode_scalar, encode_utf8};

verus! {

/// A match that starts at `from` ends at `from` or behind it, and within
/// the text; so does a failure.
pub open spec fn in_bounds<T>(parsed: Parsed<T>, from: int, len: int) -> bool {
    match parsed {
        Parsed::Done(_, e) => from <= e <= len,
        Parsed::Miss => true,
        Parsed::Fail(_, a) => from <= a <= len,
    }
}

/// A match ends behind `from`: it takes one character at least.
pub open spec fn advances<T>(parsed: Parsed<T>, from: int) -> bool {
    parsed matches Parsed::Done(_, e) ==> from < e
}

/// A run of letters, numbers and `_` ends within the text.
pub proof fn word_end_in_bounds(text: Seq<char>, i: int)
    requires
        0 <= i <= text.len(),
    ensures
        i <= word_end(text, i) <= text.len(),
    decreases text.len() - i,
{
    if i < text.len() && is_word_char(text[i]) {
        word_end_in_bounds(text, i + 1);
    }
}

/// A run of `-` ends within the text.
pub proof fn dashes_end_in_bounds(text: Seq<char>, i: int)
    requires
        0 <= i <= text.len(),
    ensures
        i <= dashes_end(text, i) <= text.len(),
    decreases text.len() - i,
{
    if i < text.len() && text[i] == '-' {
        dashes_end_in_bounds(text, i + 1);
    }
}

/// The pieces of a parameter end, or fail, within the text.
pub proof fn joined_pieces_in_bounds(text: Seq<char>, i: int)
    requires
        0 <= i <= text.len(),
    ensures
        in_bounds(joined_pieces(text, i), i, text.len() as int),
        !(joined_pieces(text, i) is Miss),
    decreases text.len() - i,
{
    if i < text.len() {
        if is_word_char(text[i]) {
            joined_pieces_in_bounds(text, i + 1);
        } else if text[i] == '~' {
            if i + 1 < text.len() {
                joined_pieces_in_bounds(text, i + 2);
            }
        } else if text[i] == '%' {
            if i + 2 < text.len() {
                joined_pieces_in_bounds(text, i + 3);
            }
        }
    }
}

/// A parameter ends, or fails, within the text.
pub proof fn parameter_in_bounds(text: Seq<char>, i: int)
    requires
        0 <= i <= text.len(),
    ensures
        in_bounds(parameter_at(text, i), i, text.len() as int),
        !(parameter_at(text, i) is Miss),
{
    joined_pieces_in_bounds(text, i);
}

/// The parameters of an action end, or fail, within the text.
pub proof fn parameters_in_bounds(text: Seq<char>, i: int)
    requires
        0 <= i <= text.len(),
    ensures
        in_bounds(parameters_at(text, i), i, text.len() as int),
        !(parameters_at(text, i) is Miss),
    decreases text.len() - i,
{
    if i < text.len() && text[i] == '-' {
        parameter_in_bounds(text, i + 1);
        match parameter_at(text, i + 1) {
            Parsed::Done(p, e) => {
                parameters_in_bounds(text, e);
            },
            _ => {},
        }
    }
}

/// An action ends, or fails, within the text, and takes one character at least.
pub proof fn action_in_bounds(text: Seq<char>, i: int)
    requires
        0 <= i <= text.len(),
    ensures
        in_bounds(action_at(text, i), i, text.len() as int),
        advances(action_at(text, i), i),
{
    if i < text.len() && is_name_start(text[i]) {
        word_end_in_bounds(text, i + 1);
        parameters_in_bounds(text, word_end(text, i));
    }
}

/// The further actions of a path end, or fail, within the text.
pub proof fn more_actions_in_bounds(text: Seq<char>, i: int)
    requires
        0 <= i <= text.len(),
    ensures
        in_bounds(more_actions_at(text, i), i, text.len() as int),
        !(more_actions_at(text, i) is Miss),
    decreases text.len() - i,
{
    if i < text.len() && text[i] == '/' {
        action_in_bounds(text, i + 1);
        match action_at(text, i + 1) {
            Parsed::Done(a, e) => {
                more_actions_in_bounds(text, e);
            },
            _ => {},
        }
    }
}

/// A path ends, or fails, within the text; one that is not empty takes one
/// character at least.
pub proof fn path_in_bounds(text: Seq<char>, i: int)
    requires
        0 <= i <= text.len(),
    ensures
        in_bounds(nonempty_path_at(text, i), i, text.len() as int),
        advances(nonempty_path_at(text, i), i),
        in_bounds(path_at(text, i), i, text.len() as int),
        !(path_at(text, i) is Miss),
{
    action_in_bounds(text, i);
    match action_at(text, i) {
        Parsed::Done(a, e) => {
            more_actions_in_bounds(text, e);
        },
        _ => {},
    }
}

/// A header ends, or fails, within the text, and takes one character at least.
pub proof fn header_in_bounds(text: Seq<char>, i: int)
    requires
        0 <= i <= text.len(),
    ensures
        in_bounds(header_at(text, i), i, text.len() as int),
        advances(header_at(text, i), i),
{
    if i < text.len() && text[i] == '-' {
        dashes_end_in_bounds(text, i + 1);
        action_in_bounds(text, dashes_end(text, i));
    }
}

/// A segment ends, or fails, within the text, and takes one character at least.
pub proof fn segment_in_bounds(text: Seq<char>, i: int)
    requires
        0 <= i <= text.len(),
    ensures
        in_bounds(headed_segment_at(text, i), i, text.len() as int),
        advances(headed_segment_at(text, i), i),
        in_bounds(segment_at(text, i), i, text.len() as int),
        advances(segment_at(text, i), i),
{
    header_in_bounds(text, i);
    match header_at(text, i) {
        Parsed::Done(h, e) => {
            if e < text.len() && text[e] == '/' {
                path_in_bounds(text, e + 1);
            }
        },
        _ => {},
    }
    path_in_bounds(text, i);
}

/// The further segments of a query end, or fail, within the text.
pub proof fn more_segments_in_bounds(text: Seq<char>, i: int)
    requires
        0 <= i <= text.len(),
    ensures
        in_bounds(more_segments_at(text, i), i, text.len() as int),
        !(more_segments_at(text, i) is Miss),
    decreases text.len() - i,
{
    if i < text.len() && text[i] == '/' {
        segment_in_bounds(text, i + 1);
        match segment_at(text, i + 1) {
            Parsed::Done(s, e) => {
                more_segments_in_bounds(text, e);
            },
            _ => {},
        }
    }
}

/// A query ends, or fails, within the text.
pub proof fn query_in_bounds(text: Seq<char>, i: int)
    requires
        0 <= i <= text.len(),
    ensures
        in_bounds(query_at(text, i), i, text.len() as int),
        !(query_at(text, i) is Miss),
{
    segment_in_bounds(text, i);
    match segment_at(text, i) {
        Parsed::Done(s, e) => {
            more_segments_in_bounds(text, e);
        },
        _ => {},
    }
}

/// A text that parses is consumed whole: the path, and likewise the query,
/// that `parsed_path` and `parsed_query` give is what the grammar matches
/// from the first character of the text to its last.
#[verifier::rlimit(60)]
pub proof fn parsed_text_is_consumed_whole(text: Seq<char>)
    ensures
        parsed_path(text) matches Ok(path) ==> path_at(text, 0) == Parsed::Done(
            path,
            text.len() as int,
        ),
        parsed_query(text) matches Ok(query) ==> query_at(text, 0) == Parsed::Done(
            query,
            text.len() as int,
        ),
{
    path_in_bounds(text, 0);
    query_in_bounds(text, 0);
}

/// The empty text is the empty path and the empty query, never an error.
pub proof fn empty_text_parses_to_nothing()
    ensures
        parsed_path(Seq::<char>::empty()) == Ok::<Seq<RequestModel>, ErrorModel>(Seq::empty()),
        parsed_query(Seq::<char>::empty()) == Ok::<Seq<SegmentModel>, ErrorModel>(Seq::empty()),
{
}

/// `text` is an identifier: a letter or `_`, then letters, numbers and `_`.
pub open spec fn is_identifier(text: Seq<char>) -> bool {
    &&& text.len() > 0
    &&& is_name_start(text[0])
    &&& forall|i: int| 0 <= i < text.len() ==> is_word_char(#[trigger] text[i])
}

/// The one action that a text is where it is an identifier: the text as the
/// name, at the first position, with no parameter.
pub open spec fn bare_action(text: Seq<char>) -> RequestModel {
    RequestModel { name: text, position: position_at(text, 0), parameters: Seq::empty() }
}

proof fn word_run_to_the_end(text: Seq<char>, i: int)
    requires
        0 <= i <= text.len(),
        forall|k: int| i <= k < text.len() ==> is_word_char(#[trigger] text[k]),
    ensures
        word_end(text, i) == text.len(),
    decreases text.len() - i,
{
    if i < text.len() {
        word_run_to_the_end(text, i + 1);
    }
}

/// An identifier holds none of `-`, `/`, `~` and `%`, and it parses to one
/// action with no parameter, whose name is the whole text; as a query, to
/// one segment without a header that holds that action.
pub proof fn identifier_parses_to_one_action(text: Seq<char>)
    requires
        is_identifier(text),
    ensures
        forall|i: int|
            0 <= i < text.len() ==> (#[trigger] text[i]) != '-' && text[i] != '/' && text[i] != '~'
                && text[i] != '%',
        parsed_path(text) == Ok::<Seq<RequestModel>, ErrorModel>(seq![bare_action(text)]),
        parsed_query(text) == Ok::<Seq<SegmentModel>, ErrorModel>(
            seq![SegmentModel { header: None, path: seq![bare_action(text)] }],
        ),
{
    let n = text.len() as int;
    word_run_to_the_end(text, 0);
    assert(text.subrange(0, n) =~= text);
    assert(action_at(text, 0) == Parsed::Done(bare_action(text), n));
    assert(seq![bare_action(text)] + Seq::<RequestModel>::empty() =~= seq![bare_action(text)]);
    assert(nonempty_path_at(text, 0) == Parsed::Done(seq![bare_action(text)], n));
    let segment = SegmentModel { header: None, path: seq![bare_action(text)] };
    assert(text[0] != '-');
    assert(header_at(text, 0) is Miss);
    assert(segment_at(text, 0) == Parsed::Done(segment, n));
    assert(seq![segment] + Seq::<SegmentModel>::empty() =~= seq![segment]);
    assert forall|i: int| 0 <= i < text.len() implies (#[trigger] text[i]) != '-' && text[i] != '/'
        && text[i] != '~' && text[i] != '%' by {
        assert(is_word_char(text[i]));
    }
}

/// The byte offsets of the positions are offsets into the UTF-8 form of the
/// text: a text is as long, in bytes, as its UTF-8 form.
pub proof fn utf8_length_is_encoded_length(text: Seq<char>)
    ensures
        utf8_length(text) == encode_utf8(text).len(),
    decreases text.len(),
{
    if text.len() > 0 {
        let front = text.drop_last();
        let c = text.last();
        utf8_length_is_encoded_length(front);
        encoded_with_last(front, c);
        assert(front.push(c) =~= text);
        char_is_scalar(c);
        assert(encode_scalar(c as u32).len() == utf8_width(c));
    }
}

proof fn encoded_with_last(text: Seq<char>, c: char)
    ensures
        encode_utf8(text.push(c)) == encode_utf8(text) + encode_scalar(c as u32),
    decreases text.len(),
{
    if text.len() == 0 {
        assert(text.push(c).drop_first() =~= Seq::<char>::empty());
        assert(encode_utf8(Seq::<char>::empty()) =~= Seq::<u8>::empty());
        assert(encode_utf8(text.push(c)) =~= encode_scalar(c as u32));
        assert(encode_utf8(text) + encode_scalar(c as u32) =~= encode_scalar(c as u32));
    } else {
        encoded_with_last(text.drop_first(), c);
        assert(text.push(c).drop_first() =~= text.drop_first().push(c));
        assert(text.push(c)[0] == text[0]);
        assert(encode_scalar(text[0] as u32) + (encode_utf8(text.drop_first()) + encode_scalar(
            c as u32,
        )) =~= (encode_scalar(text[0] as u32) + encode_utf8(text.drop_first())) + encode_scalar(
            c as u32,
        ));
    }
}

/// Two hexadecimal digits follow the `%` at the index `k`.
pub open spec fn is_percent_escape(text: Seq<char>, k: int) -> bool {
    k + 2 < text.len() && is_hex_digit(text[k + 1]) && is_hex_digit(text[k + 2])
}

/// A `%` that two hexadecimal digits do not follow is a failure where a
/// parameter is read: it is never passed through.
pub proof fn stray_percent_fails(text: Seq<char>, i: int)
    requires
        0 <= i < text.len(),
        text[i] == '%',
        !is_percent_escape(text, i),
    ensures
        joined_pieces(text, i) == Parsed::<Seq<char>>::Fail(Fault::Percent, i + 1),
        parameter_at(text, i) == Parsed::<crate::query::ParameterModel>::Fail(
            Fault::Percent,
            i + 1,
        ),
{
}

/// The character at the index `k` is one that a match can hold: a letter, a
/// number, `_`, `-`, `/`, `~`, or a `%` that starts a percent escape.
pub open spec fn can_be_matched(text: Seq<char>, k: int) -> bool {
    is_word_char(text[k]) || text[k] == '-' || text[k] == '/' || text[k] == '~' || (text[k] == '%'
        && is_percent_escape(text, k))
}

/// `fine` holds of every index from `from` to `to`.
pub open spec fn all_fine(fine: spec_fn(int) -> bool, from: int, to: int) -> bool {
    forall|k: int| from <= k < to ==> #[trigger] fine(k)
}

/// `fine` holds of the index of every character that a match can hold.
pub open spec fn fine_in_matches(text: Seq<char>, fine: spec_fn(int) -> bool) -> bool {
    forall|k: int| 0 <= k < text.len() && can_be_matched(text, k) ==> #[trigger] fine(k)
}

/// `fine` holds, besides, of the index of every `%`: of the characters that
/// stand in front of a failure.
pub open spec fn fine_in_failures(text: Seq<char>, fine: spec_fn(int) -> bool) -> bool {
    fine_in_matches(text, fine) && forall|k: int|
        0 <= k < text.len() && text[k] == '%' ==> #[trigger] fine(k)
}

/// `fine` holds of every index that the production took: from `from` to the
/// end of the match; and, where `fine` holds in failures too, from `from` to
/// the index of the failure.
pub open spec fn fine_where_taken<T>(
    text: Seq<char>,
    fine: spec_fn(int) -> bool,
    from: int,
    parsed: Parsed<T>,
) -> bool {
    match parsed {
        Parsed::Done(_, e) => all_fine(fine, from, e),
        Parsed::Miss => true,
        Parsed::Fail(_, a) => fine_in_failures(text, fine) ==> all_fine(fine, from, a),
    }
}

proof fn word_run_is_fine(text: Seq<char>, fine: spec_fn(int) -> bool, i: int)
    requires
        0 <= i <= text.len(),
        fine_in_matches(text, fine),
    ensures
        all_fine(fine, i, word_end(text, i)),
    decreases text.len() - i,
{
    if i < text.len() && is_word_char(text[i]) {
        assert(can_be_matched(text, i));
        word_run_is_fine(text, fine, i + 1);
    }
}

proof fn dash_run_is_fine(text: Seq<char>, fine: spec_fn(int) -> bool, i: int)
    requires
        0 <= i <= text.len(),
        fine_in_matches(text, fine),
    ensures
        all_fine(fine, i, dashes_end(text, i)),
    decreases text.len() - i,
{
    if i < text.len() && text[i] == '-' {
        assert(can_be_matched(text, i));
        dash_run_is_fine(text, fine, i + 1);
    }
}

proof fn pieces_are_fine(text: Seq<char>, fine: spec_fn(int) -> bool, i: int)
    requires
        0 <= i <= text.len(),
        fine_in_matches(text, fine),
    ensures
        fine_where_taken(text, fine, i, joined_pieces(text, i)),
        fine_where_taken(text, fine, i, parameter_at(text, i)),
    decreases text.len() - i,
{
    if i < text.len() {
        if is_word_char(text[i]) {
            assert(can_be_matched(text, i));
            pieces_are_fine(text, fine, i + 1);
        } else if text[i] == '~' {
            assert(can_be_matched(text, i));
            if i + 1 < text.len() {
                if text[i + 1] == '~' || text[i + 1] == '_' || crate::text::is_dec_digit(
                    text[i + 1],
                ) {
                    assert(can_be_matched(text, i + 1));
                    pieces_are_fine(text, fine, i + 2);
                }
            }
        } else if text[i] == '%' {
            if is_percent_escape(text, i) {
                assert(can_be_matched(text, i));
                assert(can_be_matched(text, i + 1));
                assert(can_be_matched(text, i + 2));
                pieces_are_fine(text, fine, i + 3);
            }
        }
    }
}

proof fn parameters_are_fine(text: Seq<char>, fine: spec_fn(int) -> bool, i: int)
    requires
        0 <= i <= text.len(),
        fine_in_matches(text, fine),
    ensures
        fine_where_taken(text, fine, i, parameters_at(text, i)),
    decreases text.len() - i,
{
    if i < text.len() && text[i] == '-' {
        assert(can_be_matched(text, i));
        parameter_in_bounds(text, i + 1);
        pieces_are_fine(text, fine, i + 1);
        match parameter_at(text, i + 1) {
            Parsed::Done(p, e) => {
                parameters_are_fine(text, fine, e);
            },
            _ => {},
        }
    }
}

proof fn action_is_fine(text: Seq<char>, fine: spec_fn(int) -> bool, i: int)
    requires
        0 <= i <= text.len(),
        fine_in_matches(text, fine),
    ensures
        fine_where_taken(text, fine, i, action_at(text, i)),
{
    if i < text.len() && is_name_start(text[i]) {
        word_end_in_bounds(text, i);
        word_run_is_fine(text, fine, i);
        parameters_are_fine(text, fine, word_end(text, i));
    }
}

proof fn more_actions_are_fine(text: Seq<char>, fine: spec_fn(int) -> bool, i: int)
    requires
        0 <= i <= text.len(),
        fine_in_matches(text, fine),
    ensures
        fine_where_taken(text, fine, i, more_actions_at(text, i)),
    decreases text.len() - i,
{
    if i < text.len() && text[i] == '/' {
        assert(can_be_matched(text, i));
        action_in_bounds(text, i + 1);
        action_is_fine(text, fine, i + 1);
        match action_at(text, i + 1) {
            Parsed::Done(a, e) => {
                more_actions_are_fine(text, fine, e);
            },
            _ => {},
        }
    }
}

proof fn path_is_fine(text: Seq<char>, fine: spec_fn(int) -> bool, i: int)
    requires
        0 <= i <= text.len(),
        fine_in_matches(text, fine),
    ensures
        fine_where_taken(text, fine, i, nonempty_path_at(text, i)),
        fine_where_taken(text, fine, i, path_at(text, i)),
{
    action_in_bounds(text, i);
    action_is_fine(text, fine, i);
    match action_at(text, i) {
        Parsed::Done(a, e) => {
            more_actions_are_fine(text, fine, e);
        },
        _ => {},
    }
}

proof fn segment_is_fine(text: Seq<char>, fine: spec_fn(int) -> bool, i: int)
    requires
        0 <= i <= text.len(),
        fine_in_matches(text, fine),
    ensures
        fine_where_taken(text, fine, i, segment_at(text, i)),
{
    path_is_fine(text, fine, i);
    if i < text.len() && text[i] == '-' {
        let d = dashes_end(text, i);
        dashes_end_in_bounds(text, i);
        dash_run_is_fine(text, fine, i);
        action_in_bounds(text, d);
        action_is_fine(text, fine, d);
        header_in_bounds(text, i);
        match header_at(text, i) {
            Parsed::Done(h, e) => {
                if e < text.len() && text[e] == '/' {
                    assert(can_be_matched(text, e));
                    path_in_bounds(text, e + 1);
                    path_is_fine(text, fine, e + 1);
                }
            },
            _ => {},
        }
    }
}

#[verifier::rlimit(60)]
proof fn more_segments_are_fine(text: Seq<char>, fine: spec_fn(int) -> bool, i: int)
    requires
        0 <= i <= text.len(),
        fine_in_matches(text, fine),
    ensures
        fine_where_taken(text, fine, i, more_segments_at(text, i)),
    decreases text.len() - i,
{
    if i < text.len() && text[i] == '/' {
        assert(can_be_matched(text, i));
        segment_in_bounds(text, i + 1);
        segment_is_fine(text, fine, i + 1);
        match segment_at(text, i + 1) {
            Parsed::Done(s, e) => {
                more_segments_are_fine(text, fine, e);
            },
            _ => {},
        }
    }
}

/// What holds of every character that a match can hold, holds of every
/// character that the grammar takes from a text.
pub proof fn taken_text_is_fine(text: Seq<char>, fine: spec_fn(int) -> bool)
    requires
        fine_in_matches(text, fine),
    ensures
        fine_where_taken(text, fine, 0, path_at(text, 0)),
        fine_where_taken(text, fine, 0, query_at(text, 0)),
{
    path_is_fine(text, fine, 0);
    segment_in_bounds(text, 0);
    segment_is_fine(text, fine, 0);
    match segment_at(text, 0) {
        Parsed::Done(s, e) => {
            more_segments_are_fine(text, fine, e);
        },
        _ => {},
    }
}

/// Every `%` from the index `from` to the index `to` starts a percent escape.
pub open spec fn percents_are_escapes(text: Seq<char>, from: int, to: int) -> bool {
    forall|k: int| from <= k < to && #[trigger] text[k] == '%' ==> is_percent_escape(text, k)
}

/// In a text that parses, every `%` starts a percent escape: two
/// hexadecimal digits follow it.
pub proof fn parsed_text_has_no_stray_percent(text: Seq<char>)
    ensures
        parsed_path(text) is Ok ==> percents_are_escapes(text, 0, text.len() as int),
        parsed_query(text) is Ok ==> percents_are_escapes(text, 0, text.len() as int),
{
    let fine = |k: int| text[k] == '%' ==> is_percent_escape(text, k);
    assert(fine_in_matches(text, fine)) by {
        assert forall|k: int| 0 <= k < text.len() && can_be_matched(text, k) implies #[trigger] fine(
            k,
        ) by {}
    }
    taken_text_is_fine(text, fine);
    path_in_bounds(text, 0);
    query_in_bounds(text, 0);
    if parsed_path(text) is Ok {
        assert forall|k: int| 0 <= k < text.len() && #[trigger] text[k] == '%' implies is_percent_escape(
            text,
            k,
        ) by {
            assert(fine(k));
        }
    }
    if parsed_query(text) is Ok {
        assert forall|k: int| 0 <= k < text.len() && #[trigger] text[k] == '%' implies is_percent_escape(
            text,
            k,
        ) by {
            assert(fine(k));
        }
    }
}

/// No line break stands in front of the index `to`.
pub open spec fn no_line_break_before(text: Seq<char>, to: int) -> bool {
    forall|k: int| 0 <= k < to ==> #[trigger] text[k] != '\n'
}

/// The index at which a production, tried at the start of the text, ends
/// or fails; 0 where it does not match.
pub open spec fn stop<T>(parsed: Parsed<T>) -> int {
    match parsed {
        Parsed::Done(_, e) => e,
        Parsed::Miss => 0,
        Parsed::Fail(_, a) => a,
    }
}

/// The grammar takes no line break: none stands in front of the index at
/// which it ends or fails. So every position that it reports, of a node, of
/// what is left over and of a failure, is on the first line, and its column
/// is the number of characters in front of it, and one.
pub proof fn taken_text_has_no_line_break(text: Seq<char>)
    ensures
        no_line_break_before(text, stop(path_at(text, 0))),
        no_line_break_before(text, stop(query_at(text, 0))),
{
    let fine = |k: int| text[k] != '\n';
    assert(fine_in_failures(text, fine)) by {
        assert forall|k: int| 0 <= k < text.len() && can_be_matched(text, k) implies #[trigger] fine(
            k,
        ) by {}
        assert forall|k: int| 0 <= k < text.len() && text[k] == '%' implies #[trigger] fine(k) by {}
    }
    taken_text_is_fine(text, fine);
    assert forall|k: int| 0 <= k < stop(path_at(text, 0)) implies #[trigger] text[k] != '\n' by {
        assert(fine(k));
    }
    assert forall|k: int| 0 <= k < stop(query_at(text, 0)) implies #[trigger] text[k] != '\n' by {
        assert(fine(k));
    }
}

} // verus!
