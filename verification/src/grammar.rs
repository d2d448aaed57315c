//! The grammar of the query language, as functions of the text and of the
//! index of the character at which a production is tried.
//!
//! ```text
//! path         := action ("/" action)*         | ""
//! action       := identifier ("-" parameter)*
//! identifier   := (letter|"_") (letter|number|"_")*
//! parameter    := (run | entity | pct)*
//! run          := (letter|number|"_")+
//! entity       := "~" ("~" | "_" | digit+)
//! pct          := "%" hexdigit hexdigit
//! query        := segment ("/" segment)*       | ""
//! segment      := header ("/" path)?  | path
//! header       := "-"+ action?
//! ```
//!
//! A production either matches and ends at some index, or does not match, or
//! fails: once a `~` or a `%` has been read, what follows must complete the
//! escape, and no other alternative is tried.
use crate::error::ErrorModel;
use crate::query::{HeaderModel, ParameterModel, Position, RequestModel, SegmentModel};
use crate::text::{is_dec_digit, is_hex_digit, is_name_start, is_word_char};
use vstd::prelude::*;
use vstd::utf8::{decode_utf8, encode_utf8, valid_utf8};

verus! {

/// Why a production failed.
#[derive(Debug, Clone, Copy, PartialEq, Eq)]
pub enum Fault {
    /// A `~` is followed by none of `~`, `_` and a digit.
    Entity,
    /// A `%` is not followed by two hexadecimal digits.
    Percent,
    /// The percent-decoded bytes of a parameter are not UTF-8.
    Encoding,
}

/// What a production does at an index: it matches, with a value and the index
/// behind the match; it does not match; or it fails, at an index.
pub enum Parsed<T> {
    Done(T, int),
    Miss,
    Fail(Fault, int),
}

/// The number of bytes that `c` takes in UTF-8.
pub open spec fn utf8_width(c: char) -> nat {
    if (c as u32) < 0x80 {
        1
    } else if (c as u32) < 0x800 {
        2
    } else if (c as u32) < 0x10000 {
        3
    } else {
        4
    }
}

/// The number of bytes that `text` takes in UTF-8.
pub open spec fn utf8_length(text: Seq<char>) -> nat
    decreases text.len(),
{
    if text.len() == 0 {
        0
    } else {
        utf8_length(text.drop_last()) + utf8_width(text.last())
    }
}

/// `n`, or the largest `usize` where `n` is beyond it.
pub open spec fn clamped(n: int) -> usize {
    if n <= usize::MAX {
        n as usize
    } else {
        usize::MAX
    }
}

/// The position of the character with index `i`: its byte offset, and its
/// column counted from 1, each no larger than a `usize` can be. The grammar
/// takes no line break, so every position that it reports is on line 1.
pub open spec fn position_at(text: Seq<char>, i: int) -> Position {
    Position { offset: clamped(utf8_length(text.take(i)) as int), line: 1, column: clamped(i + 1) }
}

/// The byte of a hexadecimal digit, in either case.
pub open spec fn is_hex_byte(b: u8) -> bool {
    (0x30 <= b <= 0x39) || (0x41 <= b <= 0x46) || (0x61 <= b <= 0x66)
}

/// The value of a hexadecimal digit given as a byte.
pub open spec fn hex_value(b: u8) -> int {
    if 0x30 <= b <= 0x39 {
        b - 0x30
    } else if 0x41 <= b <= 0x46 {
        b - 0x41 + 10
    } else {
        b - 0x61 + 10
    }
}

/// Percent-decoding: a `%` with two hexadecimal digits behind it stands for
/// the byte that they write; every other byte stands for itself.
pub open spec fn percent_decoded(bytes: Seq<u8>) -> Seq<u8>
    decreases bytes.len(),
{
    if bytes.len() == 0 {
        Seq::empty()
    } else if bytes[0] == 0x25 && bytes.len() >= 3 && is_hex_byte(bytes[1]) && is_hex_byte(
        bytes[2],
    ) {
        seq![(hex_value(bytes[1]) * 16 + hex_value(bytes[2])) as u8] + percent_decoded(
            bytes.skip(3),
        )
    } else {
        seq![bytes[0]] + percent_decoded(bytes.skip(1))
    }
}

/// The text that the pieces of a parameter, joined, stand for: their UTF-8
/// bytes, percent-decoded once and read as UTF-8, if they are UTF-8.
pub open spec fn decoded_text(joined: Seq<char>) -> Option<Seq<char>> {
    let bytes = percent_decoded(encode_utf8(joined));
    if valid_utf8(bytes) {
        Some(decode_utf8(bytes))
    } else {
        None
    }
}

/// What `rest` matched, with `head` in front of it.
pub open spec fn after<T>(head: Seq<T>, rest: Parsed<Seq<T>>) -> Parsed<Seq<T>> {
    match rest {
        Parsed::Done(s, e) => Parsed::Done(head + s, e),
        Parsed::Miss => Parsed::Miss,
        Parsed::Fail(f, a) => Parsed::Fail(f, a),
    }
}

/// To put two heads in front, one after the other, is to put their
/// concatenation in front.
pub proof fn after_joined<T>(a: Seq<T>, b: Seq<T>, rest: Parsed<Seq<T>>)
    ensures
        after(a, after(b, rest)) == after(a + b, rest),
{
    match rest {
        Parsed::Done(s, e) => {
            assert(a + (b + s) =~= (a + b) + s);
        },
        _ => {},
    }
}

/// An empty head changes nothing.
pub proof fn after_empty<T>(rest: Parsed<Seq<T>>)
    ensures
        after(Seq::<T>::empty(), rest) == rest,
{
    match rest {
        Parsed::Done(s, e) => {
            assert(Seq::<T>::empty() + s =~= s);
        },
        _ => {},
    }
}

/// A head in front of an empty match is the head.
pub proof fn after_nothing<T>(a: Seq<T>, e: int)
    ensures
        after(a, Parsed::Done(Seq::<T>::empty(), e)) == Parsed::Done(a, e),
{
    assert(a + Seq::<T>::empty() =~= a);
}

/// The index behind the longest run of letters, numbers and `_` that starts at `i`.
pub open spec fn word_end(text: Seq<char>, i: int) -> int
    decreases text.len() - i,
{
    if 0 <= i < text.len() && is_word_char(text[i]) {
        word_end(text, i + 1)
    } else {
        i
    }
}

/// The index behind the longest run of `-` that starts at `i`.
pub open spec fn dashes_end(text: Seq<char>, i: int) -> int
    decreases text.len() - i,
{
    if 0 <= i < text.len() && text[i] == '-' {
        dashes_end(text, i + 1)
    } else {
        i
    }
}

/// The pieces of a parameter from `i` on, joined: runs as they are, `~~` as
/// `~`, `~_` as `-`, `~` and a digit as `-` and that digit (further digits
/// are a run, and follow as they are), and a percent escape as it is. It
/// ends in front of the first character that starts no piece.
pub open spec fn joined_pieces(text: Seq<char>, i: int) -> Parsed<Seq<char>>
    decreases text.len() - i,
{
    if !(0 <= i < text.len()) {
        Parsed::Done(Seq::empty(), i)
    } else if is_word_char(text[i]) {
        after(seq![text[i]], joined_pieces(text, i + 1))
    } else if text[i] == '~' {
        if i + 1 < text.len() && text[i + 1] == '~' {
            after(seq!['~'], joined_pieces(text, i + 2))
        } else if i + 1 < text.len() && text[i + 1] == '_' {
            after(seq!['-'], joined_pieces(text, i + 2))
        } else if i + 1 < text.len() && is_dec_digit(text[i + 1]) {
            after(seq!['-', text[i + 1]], joined_pieces(text, i + 2))
        } else {
            Parsed::Fail(Fault::Entity, i + 1)
        }
    } else if text[i] == '%' {
        if i + 2 < text.len() && is_hex_digit(text[i + 1]) && is_hex_digit(text[i + 2]) {
            after(seq!['%', text[i + 1], text[i + 2]], joined_pieces(text, i + 3))
        } else {
            Parsed::Fail(Fault::Percent, i + 1)
        }
    } else {
        Parsed::Done(Seq::empty(), i)
    }
}

/// A parameter at `i`: its pieces, decoded. It matches the empty text too.
pub open spec fn parameter_at(text: Seq<char>, i: int) -> Parsed<ParameterModel> {
    match joined_pieces(text, i) {
        Parsed::Done(joined, e) => match decoded_text(joined) {
            Some(s) => Parsed::Done(ParameterModel::Text(s, position_at(text, i)), e),
            None => Parsed::Fail(Fault::Encoding, e),
        },
        Parsed::Miss => Parsed::Miss,
        Parsed::Fail(f, a) => Parsed::Fail(f, a),
    }
}

/// The parameters of an action from `i` on: each behind a `-`.
pub open spec fn parameters_at(text: Seq<char>, i: int) -> Parsed<Seq<ParameterModel>>
    decreases text.len() - i,
{
    if 0 <= i < text.len() && text[i] == '-' {
        match parameter_at(text, i + 1) {
            Parsed::Done(p, e) => if i < e <= text.len() {
                after(seq![p], parameters_at(text, e))
            } else {
                Parsed::Done(seq![p], e)
            },
            Parsed::Miss => Parsed::Done(Seq::empty(), i),
            Parsed::Fail(f, a) => Parsed::Fail(f, a),
        }
    } else {
        Parsed::Done(Seq::empty(), i)
    }
}

/// An action at `i`: an identifier, which is the longest run of letters,
/// numbers and `_` that starts with a letter or `_`, and its parameters.
pub open spec fn action_at(text: Seq<char>, i: int) -> Parsed<RequestModel> {
    if 0 <= i < text.len() && is_name_start(text[i]) {
        let n = word_end(text, i);
        match parameters_at(text, n) {
            Parsed::Done(parameters, e) => Parsed::Done(
                RequestModel { name: text.subrange(i, n), position: position_at(text, i), parameters },
                e,
            ),
            Parsed::Miss => Parsed::Miss,
            Parsed::Fail(f, a) => Parsed::Fail(f, a),
        }
    } else {
        Parsed::Miss
    }
}

/// The further actions of a path from `i` on: each behind a `/`. A `/` that
/// no action follows is not taken.
pub open spec fn more_actions_at(text: Seq<char>, i: int) -> Parsed<Seq<RequestModel>>
    decreases text.len() - i,
{
    if 0 <= i < text.len() && text[i] == '/' {
        match action_at(text, i + 1) {
            Parsed::Done(a, e) => if i < e <= text.len() {
                after(seq![a], more_actions_at(text, e))
            } else {
                Parsed::Done(seq![a], e)
            },
            Parsed::Miss => Parsed::Done(Seq::empty(), i),
            Parsed::Fail(f, a) => Parsed::Fail(f, a),
        }
    } else {
        Parsed::Done(Seq::empty(), i)
    }
}

/// A path with at least one action at `i`.
pub open spec fn nonempty_path_at(text: Seq<char>, i: int) -> Parsed<Seq<RequestModel>> {
    match action_at(text, i) {
        Parsed::Done(a, e) => after(seq![a], more_actions_at(text, e)),
        Parsed::Miss => Parsed::Miss,
        Parsed::Fail(f, a) => Parsed::Fail(f, a),
    }
}

/// A path at `i`: actions with `/` between them, or nothing.
pub open spec fn path_at(text: Seq<char>, i: int) -> Parsed<Seq<RequestModel>> {
    match nonempty_path_at(text, i) {
        Parsed::Miss => Parsed::Done(Seq::empty(), i),
        other => other,
    }
}

/// A header at `i`: one `-` or more, their number being the level, and
/// optionally an action, which gives the name and the parameters.
pub open spec fn header_at(text: Seq<char>, i: int) -> Parsed<HeaderModel> {
    if 0 <= i < text.len() && text[i] == '-' {
        let d = dashes_end(text, i);
        match action_at(text, d) {
            Parsed::Done(a, e) => Parsed::Done(
                HeaderModel {
                    name: a.name,
                    level: (d - i) as nat,
                    position: position_at(text, i),
                    parameters: a.parameters,
                },
                e,
            ),
            Parsed::Miss => Parsed::Done(
                HeaderModel {
                    name: Seq::empty(),
                    level: (d - i) as nat,
                    position: position_at(text, i),
                    parameters: Seq::empty(),
                },
                d,
            ),
            Parsed::Fail(f, a) => Parsed::Fail(f, a),
        }
    } else {
        Parsed::Miss
    }
}

/// A segment that starts with a header at `i`. A `/` behind the header is
/// taken, with the path that follows it, empty or not.
pub open spec fn headed_segment_at(text: Seq<char>, i: int) -> Parsed<SegmentModel> {
    match header_at(text, i) {
        Parsed::Done(h, e) => if 0 <= e < text.len() && text[e] == '/' {
            match path_at(text, e + 1) {
                Parsed::Done(path, e2) => Parsed::Done(SegmentModel { header: Some(h), path }, e2),
                Parsed::Miss => Parsed::Miss,
                Parsed::Fail(f, a) => Parsed::Fail(f, a),
            }
        } else {
            Parsed::Done(SegmentModel { header: Some(h), path: Seq::empty() }, e)
        },
        Parsed::Miss => Parsed::Miss,
        Parsed::Fail(f, a) => Parsed::Fail(f, a),
    }
}

/// A segment at `i`: the form with a header is tried first, so a text that
/// begins with `-` is never read as a path; else a path that is not empty.
pub open spec fn segment_at(text: Seq<char>, i: int) -> Parsed<SegmentModel> {
    match headed_segment_at(text, i) {
        Parsed::Miss => match nonempty_path_at(text, i) {
            Parsed::Done(path, e) => Parsed::Done(SegmentModel { header: None, path }, e),
            Parsed::Miss => Parsed::Miss,
            Parsed::Fail(f, a) => Parsed::Fail(f, a),
        },
        other => other,
    }
}

/// The further segments of a query from `i` on: each behind a `/`. A `/`
/// that no segment follows is not taken.
pub open spec fn more_segments_at(text: Seq<char>, i: int) -> Parsed<Seq<SegmentModel>>
    decreases text.len() - i,
{
    if 0 <= i < text.len() && text[i] == '/' {
        match segment_at(text, i + 1) {
            Parsed::Done(s, e) => if i < e <= text.len() {
                after(seq![s], more_segments_at(text, e))
            } else {
                Parsed::Done(seq![s], e)
            },
            Parsed::Miss => Parsed::Done(Seq::empty(), i),
            Parsed::Fail(f, a) => Parsed::Fail(f, a),
        }
    } else {
        Parsed::Done(Seq::empty(), i)
    }
}

/// A query at `i`: segments with `/` between them, or nothing.
pub open spec fn query_at(text: Seq<char>, i: int) -> Parsed<Seq<SegmentModel>> {
    match segment_at(text, i) {
        Parsed::Done(s, e) => after(seq![s], more_segments_at(text, e)),
        Parsed::Miss => Parsed::Done(Seq::empty(), i),
        Parsed::Fail(f, a) => Parsed::Fail(f, a),
    }
}

/// The message that reports a failure.
pub open spec fn fault_message(fault: Fault) -> Seq<char> {
    match fault {
        Fault::Entity => "Invalid entity: '~', '_' or a digit must follow '~'"@,
        Fault::Percent => "Invalid percent escape: two hexadecimal digits must follow '%'"@,
        Fault::Encoding => "Invalid parameter: its percent-decoded bytes are not UTF-8"@,
    }
}

/// The message that reports input left over.
pub open spec fn leftover_message(rest: Seq<char>) -> Seq<char> {
    "Can't parse query completely: '"@ + rest + "'"@
}

/// What a whole text gives, for a production tried at its start: the value,
/// where the production matches all of the text; an error with the position
/// of the failure, or of the first character left over.
pub open spec fn complete<T>(text: Seq<char>, parsed: Parsed<Seq<T>>) -> Result<Seq<T>, ErrorModel> {
    match parsed {
        Parsed::Done(value, e) => if e < text.len() {
            Err(
                ErrorModel::ParseError {
                    message: leftover_message(text.skip(e)),
                    position: position_at(text, e),
                },
            )
        } else {
            Ok(value)
        },
        Parsed::Miss => Ok(Seq::empty()),
        Parsed::Fail(fault, at) => Err(
            ErrorModel::ParseError { message: fault_message(fault), position: position_at(text, at) },
        ),
    }
}

/// What the flat grammar makes of a text: its path of actions, or an error.
pub open spec fn parsed_path(text: Seq<char>) -> Result<Seq<RequestModel>, ErrorModel> {
    complete(text, path_at(text, 0))
}

/// What the segmented grammar makes of a text: its segments, or an error.
pub open spec fn parsed_query(text: Seq<char>) -> Result<Seq<SegmentModel>, ErrorModel> {
    complete(text, query_at(text, 0))
}

} // verus!
