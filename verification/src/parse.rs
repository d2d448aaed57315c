//! The parser: it reads a query text by the grammar, and says for each
//! production what the grammar says.
use crate::error::Error;
use crate::grammar::{
    action_at, after, after_empty, after_joined, after_nothing, clamped, dashes_end, decoded_text, fault_message, header_at,
    headed_segment_at, joined_pieces, leftover_message, more_actions_at, more_segments_at,
    nonempty_path_at, parameter_at, parameters_at, parsed_path, parsed_query, path_at,
    position_at, query_at, segment_at, utf8_length, utf8_width, word_end, Fault, Parsed,
};
use crate::query::{
    all_writable, parameter_models, path_all_text, request_models, segment_models,
    ActionParameter, ActionRequest, Position, Query, QuerySegment, SegmentHeader,
};
use crate::reread::{
    parsed_query_is_well_formed, readable_path, readable_path_is_writable, readable_segments,
    well_formed_is_writable,
};
use crate::text::{chars_of, dec_digit, hex_digit, name_start, push_text, string_of, word_char};
use vstd::prelude::*;
use vstd::string::StringExecFns;

verus! {

/// A place in the text: the index of a character and its byte offset.
#[derive(Debug, Clone, Copy)]
struct Cursor {
    index: usize,
    offset: usize,
}

impl Cursor {
    /// The cursor stands at a character of `text`, or behind the last, and
    /// its offset is that of the character.
    spec fn within(self, text: Seq<char>) -> bool {
        &&& self.index <= text.len()
        &&& self.offset == clamped(utf8_length(text.take(self.index as int)) as int)
    }
}

/// What a production did at a cursor.
enum Scan<T> {
    Done(T, Cursor),
    Miss,
    Fail(Fault, Cursor),
}

/// Taken on trust of `percent_encoding::percent_decode_str` and, on what it
/// gives, of `PercentDecode::decode_utf8`: the UTF-8 bytes of `joined` are
/// percent-decoded, each `%` with two hexadecimal digits behind it to the
/// byte that they write and every other byte to itself; the result is the
/// text of those bytes where they are UTF-8, and an error where they are not.
#[verifier::external_body]
fn percent_decode_text(joined: &str) -> (r: Option<String>)
    ensures
        match r {
            Some(s) => decoded_text(joined@) == Some(s@),
            None => decoded_text(joined@) is None,
        },
{
    match percent_encoding::percent_decode_str(joined).decode_utf8() {
        Ok(s) => Some(s.into_owned()),
        Err(_) => None,
    }
}

fn width(c: char) -> (w: usize)
    ensures
        w == utf8_width(c),
{
    let u = c as u32;
    if u < 0x80 {
        1
    } else if u < 0x800 {
        2
    } else if u < 0x10000 {
        3
    } else {
        4
    }
}

fn start(text: &Vec<char>) -> (cur: Cursor)
    ensures
        cur.within(text@),
        cur.index == 0,
{
    assert(text@.take(0) =~= Seq::<char>::empty());
    Cursor { index: 0, offset: 0 }
}

/// The cursor one character on.
fn step(text: &Vec<char>, cur: Cursor) -> (next: Cursor)
    requires
        cur.within(text@),
        cur.index < text.len(),
    ensures
        next.within(text@),
        next.index == cur.index + 1,
{
    let w = width(text[cur.index]);
    proof {
        let i = cur.index as int;
        assert(text@.take(i + 1).drop_last() == text@.take(i));
        assert(text@.take(i + 1).last() == text@[i]);
    }
    let offset = if cur.offset <= usize::MAX - w {
        cur.offset + w
    } else {
        usize::MAX
    };
    Cursor { index: cur.index + 1, offset }
}

fn position(text: &Vec<char>, cur: Cursor) -> (p: Position)
    requires
        cur.within(text@),
    ensures
        p == position_at(text@, cur.index as int),
{
    let column = if cur.index < usize::MAX {
        cur.index + 1
    } else {
        usize::MAX
    };
    Position { offset: cur.offset, line: 1, column }
}

fn scan_word(text: &Vec<char>, cur: Cursor) -> (end: Cursor)
    requires
        cur.within(text@),
    ensures
        end.within(text@),
        end.index == word_end(text@, cur.index as int),
        end.index >= cur.index,
{
    let mut c = cur;
    while c.index < text.len() && word_char(text[c.index])
        invariant
            c.within(text@),
            c.index >= cur.index,
            word_end(text@, cur.index as int) == word_end(text@, c.index as int),
        decreases text.len() - c.index,
    {
        c = step(text, c);
    }
    c
}

fn scan_dashes(text: &Vec<char>, cur: Cursor) -> (end: Cursor)
    requires
        cur.within(text@),
    ensures
        end.within(text@),
        end.index == dashes_end(text@, cur.index as int),
        end.index >= cur.index,
{
    let mut c = cur;
    while c.index < text.len() && text[c.index] == '-'
        invariant
            c.within(text@),
            c.index >= cur.index,
            dashes_end(text@, cur.index as int) == dashes_end(text@, c.index as int),
        decreases text.len() - c.index,
    {
        c = step(text, c);
    }
    c
}

/// The pieces of a parameter at `cur`, joined.
fn scan_pieces(text: &Vec<char>, cur: Cursor) -> (r: Scan<String>)
    requires
        cur.within(text@),
    ensures
        match r {
            Scan::Done(s, c) => joined_pieces(text@, cur.index as int) == Parsed::Done(
                s@,
                c.index as int,
            ) && c.within(text@) && c.index >= cur.index,
            Scan::Miss => false,
            Scan::Fail(f, c) => joined_pieces(text@, cur.index as int) == Parsed::<
                Seq<char>,
            >::Fail(f, c.index as int) && c.within(text@),
        },
{
    let mut joined = String::new();
    let mut c = cur;
    proof {
        after_empty(joined_pieces(text@, c.index as int));
    }
    loop
        invariant
            c.within(text@),
            c.index >= cur.index,
            joined_pieces(text@, cur.index as int) == after(
                joined@,
                joined_pieces(text@, c.index as int),
            ),
        decreases text.len() - c.index,
    {
        if c.index >= text.len() {
            proof {
                after_nothing(joined@, c.index as int);
            }
            return Scan::Done(joined, c);
        }
        let ch = text[c.index];
        let ghost before = joined@;
        if word_char(ch) {
            joined.push(ch);
            proof {
                after_joined(before, seq![ch], joined_pieces(text@, c.index + 1));
                assert(before + seq![ch] =~= joined@);
            }
            c = step(text, c);
        } else if ch == '~' {
            let c1 = step(text, c);
            if c1.index < text.len() && text[c1.index] == '~' {
                joined.push('~');
                proof {
                    after_joined(before, seq!['~'], joined_pieces(text@, c.index + 2));
                    assert(before + seq!['~'] =~= joined@);
                }
                c = step(text, c1);
            } else if c1.index < text.len() && text[c1.index] == '_' {
                joined.push('-');
                proof {
                    after_joined(before, seq!['-'], joined_pieces(text@, c.index + 2));
                    assert(before + seq!['-'] =~= joined@);
                }
                c = step(text, c1);
            } else if c1.index < text.len() && dec_digit(text[c1.index]) {
                let d = text[c1.index];
                joined.push('-');
                joined.push(d);
                proof {
                    after_joined(before, seq!['-', d], joined_pieces(text@, c.index + 2));
                    assert(before + seq!['-', d] =~= joined@);
                }
                c = step(text, c1);
            } else {
                return Scan::Fail(Fault::Entity, c1);
            }
        } else if ch == '%' {
            let c1 = step(text, c);
            if c1.index < text.len() && c1.index + 1 < text.len() && hex_digit(text[c1.index])
                && hex_digit(text[c1.index + 1]) {
                let h = text[c1.index];
                let l = text[c1.index + 1];
                joined.push('%');
                joined.push(h);
                joined.push(l);
                proof {
                    after_joined(before, seq!['%', h, l], joined_pieces(text@, c.index + 3));
                    assert(before + seq!['%', h, l] =~= joined@);
                }
                let c2 = step(text, c1);
                c = step(text, c2);
            } else {
                return Scan::Fail(Fault::Percent, c1);
            }
        } else {
            proof {
                after_nothing(joined@, c.index as int);
            }
            return Scan::Done(joined, c);
        }
    }
}

/// A parameter at `cur`.
fn scan_parameter(text: &Vec<char>, cur: Cursor) -> (r: Scan<ActionParameter>)
    requires
        cur.within(text@),
    ensures
        match r {
            Scan::Done(p, c) => parameter_at(text@, cur.index as int) == Parsed::Done(
                p@,
                c.index as int,
            ) && c.within(text@) && c.index >= cur.index,
            Scan::Miss => false,
            Scan::Fail(f, c) => parameter_at(text@, cur.index as int) == Parsed::<
                crate::query::ParameterModel,
            >::Fail(f, c.index as int) && c.within(text@),
        },
{
    let place = position(text, cur);
    match scan_pieces(text, cur) {
        Scan::Done(joined, c) => match percent_decode_text(joined.as_str()) {
            Some(s) => Scan::Done(ActionParameter::new_parsed(s, place), c),
            None => Scan::Fail(Fault::Encoding, c),
        },
        Scan::Miss => Scan::Miss,
        Scan::Fail(f, c) => Scan::Fail(f, c),
    }
}

/// The parameters of an action at `cur`.
fn scan_parameters(text: &Vec<char>, cur: Cursor) -> (r: Scan<Vec<ActionParameter>>)
    requires
        cur.within(text@),
    ensures
        match r {
            Scan::Done(v, c) => parameters_at(text@, cur.index as int) == Parsed::Done(
                parameter_models(v@),
                c.index as int,
            ) && c.within(text@) && c.index >= cur.index,
            Scan::Miss => false,
            Scan::Fail(f, c) => parameters_at(text@, cur.index as int) == Parsed::<
                Seq<crate::query::ParameterModel>,
            >::Fail(f, c.index as int) && c.within(text@),
        },
{
    let mut found: Vec<ActionParameter> = Vec::new();
    let mut c = cur;
    proof {
        assert(parameter_models(found@) =~= Seq::empty());
        after_empty(parameters_at(text@, c.index as int));
    }
    loop
        invariant
            c.within(text@),
            c.index >= cur.index,
            parameters_at(text@, cur.index as int) == after(
                parameter_models(found@),
                parameters_at(text@, c.index as int),
            ),
        decreases text.len() - c.index,
    {
        if c.index < text.len() && text[c.index] == '-' {
            let c1 = step(text, c);
            match scan_parameter(text, c1) {
                Scan::Done(p, c2) => {
                    proof {
                        after_joined(
                            parameter_models(found@),
                            seq![p@],
                            parameters_at(text@, c2.index as int),
                        );
                        assert(parameter_models(found@.push(p)) =~= parameter_models(found@)
                            + seq![p@]);
                    }
                    found.push(p);
                    c = c2;
                },
                Scan::Miss => {
                    return Scan::Miss;
                },
                Scan::Fail(f, c2) => {
                    return Scan::Fail(f, c2);
                },
            }
        } else {
            proof {
                after_nothing(parameter_models(found@), c.index as int);
            }
            return Scan::Done(found, c);
        }
    }
}

/// An action at `cur`.
fn scan_action(text: &Vec<char>, cur: Cursor) -> (r: Scan<ActionRequest>)
    requires
        cur.within(text@),
    ensures
        match r {
            Scan::Done(a, c) => action_at(text@, cur.index as int) == Parsed::Done(
                a@,
                c.index as int,
            ) && c.within(text@) && c.index > cur.index,
            Scan::Miss => action_at(text@, cur.index as int) is Miss,
            Scan::Fail(f, c) => action_at(text@, cur.index as int) == Parsed::<
                crate::query::RequestModel,
            >::Fail(f, c.index as int) && c.within(text@),
        },
{
    if cur.index < text.len() && name_start(text[cur.index]) {
        let place = position(text, cur);
        let c1 = step(text, cur);
        let n = scan_word(text, c1);
        let name = string_of(text, cur.index, n.index);
        match scan_parameters(text, n) {
            Scan::Done(parameters, c) => Scan::Done(
                ActionRequest { name, position: place, parameters },
                c,
            ),
            Scan::Miss => Scan::Miss,
            Scan::Fail(f, c) => Scan::Fail(f, c),
        }
    } else {
        Scan::Miss
    }
}

/// The further actions of a path at `cur`, behind those in `first`.
fn scan_more_actions(text: &Vec<char>, cur: Cursor, first: Vec<ActionRequest>) -> (r: Scan<
    Vec<ActionRequest>,
>)
    requires
        cur.within(text@),
    ensures
        match r {
            Scan::Done(v, c) => after(
                request_models(first@),
                more_actions_at(text@, cur.index as int),
            ) == Parsed::Done(request_models(v@), c.index as int) && c.within(text@) && c.index
                >= cur.index,
            Scan::Miss => false,
            Scan::Fail(f, c) => more_actions_at(text@, cur.index as int) == Parsed::<
                Seq<crate::query::RequestModel>,
            >::Fail(f, c.index as int) && c.within(text@),
        },
{
    let mut found = first;
    let mut c = cur;
    loop
        invariant
            c.within(text@),
            c.index >= cur.index,
            after(request_models(first@), more_actions_at(text@, cur.index as int)) == after(
                request_models(found@),
                more_actions_at(text@, c.index as int),
            ),
            more_actions_at(text@, c.index as int) is Fail ==> more_actions_at(
                text@,
                cur.index as int,
            ) == more_actions_at(text@, c.index as int),
        decreases text.len() - c.index,
    {
        if c.index < text.len() && text[c.index] == '/' {
            let c1 = step(text, c);
            match scan_action(text, c1) {
                Scan::Done(a, c2) => {
                    proof {
                        after_joined(
                            request_models(found@),
                            seq![a@],
                            more_actions_at(text@, c2.index as int),
                        );
                        assert(request_models(found@.push(a)) =~= request_models(found@)
                            + seq![a@]);
                    }
                    found.push(a);
                    c = c2;
                },
                Scan::Miss => {
                    proof {
                        after_nothing(request_models(found@), c.index as int);
                    }
                    return Scan::Done(found, c);
                },
                Scan::Fail(f, c2) => {
                    return Scan::Fail(f, c2);
                },
            }
        } else {
            proof {
                after_nothing(request_models(found@), c.index as int);
            }
            return Scan::Done(found, c);
        }
    }
}

/// A path with at least one action at `cur`.
fn scan_nonempty_path(text: &Vec<char>, cur: Cursor) -> (r: Scan<Vec<ActionRequest>>)
    requires
        cur.within(text@),
    ensures
        match r {
            Scan::Done(v, c) => nonempty_path_at(text@, cur.index as int) == Parsed::Done(
                request_models(v@),
                c.index as int,
            ) && c.within(text@) && c.index > cur.index,
            Scan::Miss => nonempty_path_at(text@, cur.index as int) is Miss,
            Scan::Fail(f, c) => nonempty_path_at(text@, cur.index as int) == Parsed::<
                Seq<crate::query::RequestModel>,
            >::Fail(f, c.index as int) && c.within(text@),
        },
{
    match scan_action(text, cur) {
        Scan::Done(a, c) => {
            let mut first: Vec<ActionRequest> = Vec::new();
            proof {
                assert(request_models(first@.push(a)) =~= seq![a@]);
            }
            first.push(a);
            match scan_more_actions(text, c, first) {
                Scan::Done(v, c2) => Scan::Done(v, c2),
                Scan::Miss => Scan::Miss,
                Scan::Fail(f, c2) => Scan::Fail(f, c2),
            }
        },
        Scan::Miss => Scan::Miss,
        Scan::Fail(f, c) => Scan::Fail(f, c),
    }
}

/// A path at `cur`.
fn scan_path(text: &Vec<char>, cur: Cursor) -> (r: Scan<Vec<ActionRequest>>)
    requires
        cur.within(text@),
    ensures
        match r {
            Scan::Done(v, c) => path_at(text@, cur.index as int) == Parsed::Done(
                request_models(v@),
                c.index as int,
            ) && c.within(text@) && c.index >= cur.index,
            Scan::Miss => false,
            Scan::Fail(f, c) => path_at(text@, cur.index as int) == Parsed::<
                Seq<crate::query::RequestModel>,
            >::Fail(f, c.index as int) && c.within(text@),
        },
{
    match scan_nonempty_path(text, cur) {
        Scan::Done(v, c) => Scan::Done(v, c),
        Scan::Miss => {
            let v: Vec<ActionRequest> = Vec::new();
            proof {
                assert(request_models(v@) =~= Seq::empty());
            }
            Scan::Done(v, cur)
        },
        Scan::Fail(f, c) => Scan::Fail(f, c),
    }
}

/// A header at `cur`.
fn scan_header(text: &Vec<char>, cur: Cursor) -> (r: Scan<SegmentHeader>)
    requires
        cur.within(text@),
    ensures
        match r {
            Scan::Done(h, c) => header_at(text@, cur.index as int) == Parsed::Done(
                h@,
                c.index as int,
            ) && c.within(text@) && c.index > cur.index,
            Scan::Miss => header_at(text@, cur.index as int) is Miss,
            Scan::Fail(f, c) => header_at(text@, cur.index as int) == Parsed::<
                crate::query::HeaderModel,
            >::Fail(f, c.index as int) && c.within(text@),
        },
{
    if cur.index < text.len() && text[cur.index] == '-' {
        let place = position(text, cur);
        let c1 = step(text, cur);
        let d = scan_dashes(text, c1);
        let level = d.index - cur.index;
        match scan_action(text, d) {
            Scan::Done(a, c) => Scan::Done(
                SegmentHeader::new_parsed_from_action_request(level, place, &a),
                c,
            ),
            Scan::Miss => Scan::Done(SegmentHeader::new_parsed_minimal(level, place), d),
            Scan::Fail(f, c) => Scan::Fail(f, c),
        }
    } else {
        Scan::Miss
    }
}

/// A segment that starts with a header at `cur`.
fn scan_headed_segment(text: &Vec<char>, cur: Cursor) -> (r: Scan<QuerySegment>)
    requires
        cur.within(text@),
    ensures
        match r {
            Scan::Done(s, c) => headed_segment_at(text@, cur.index as int) == Parsed::Done(
                s@,
                c.index as int,
            ) && c.within(text@) && c.index > cur.index,
            Scan::Miss => headed_segment_at(text@, cur.index as int) is Miss,
            Scan::Fail(f, c) => headed_segment_at(text@, cur.index as int) == Parsed::<
                crate::query::SegmentModel,
            >::Fail(f, c.index as int) && c.within(text@),
        },
{
    match scan_header(text, cur) {
        Scan::Done(header, c) => {
            if c.index < text.len() && text[c.index] == '/' {
                let c1 = step(text, c);
                match scan_path(text, c1) {
                    Scan::Done(path, c2) => Scan::Done(
                        QuerySegment::new_from(Some(header), path),
                        c2,
                    ),
                    Scan::Miss => Scan::Miss,
                    Scan::Fail(f, c2) => Scan::Fail(f, c2),
                }
            } else {
                let path: Vec<ActionRequest> = Vec::new();
                proof {
                    assert(request_models(path@) =~= Seq::empty());
                }
                Scan::Done(QuerySegment::new_from(Some(header), path), c)
            }
        },
        Scan::Miss => Scan::Miss,
        Scan::Fail(f, c) => Scan::Fail(f, c),
    }
}

/// A segment at `cur`.
fn scan_segment(text: &Vec<char>, cur: Cursor) -> (r: Scan<QuerySegment>)
    requires
        cur.within(text@),
    ensures
        match r {
            Scan::Done(s, c) => segment_at(text@, cur.index as int) == Parsed::Done(
                s@,
                c.index as int,
            ) && c.within(text@) && c.index > cur.index,
            Scan::Miss => segment_at(text@, cur.index as int) is Miss,
            Scan::Fail(f, c) => segment_at(text@, cur.index as int) == Parsed::<
                crate::query::SegmentModel,
            >::Fail(f, c.index as int) && c.within(text@),
        },
{
    match scan_headed_segment(text, cur) {
        Scan::Done(s, c) => Scan::Done(s, c),
        Scan::Miss => match scan_nonempty_path(text, cur) {
            Scan::Done(path, c) => Scan::Done(QuerySegment::new_from(None, path), c),
            Scan::Miss => Scan::Miss,
            Scan::Fail(f, c) => Scan::Fail(f, c),
        },
        Scan::Fail(f, c) => Scan::Fail(f, c),
    }
}

/// The further segments of a query at `cur`, behind those in `first`.
fn scan_more_segments(text: &Vec<char>, cur: Cursor, first: Vec<QuerySegment>) -> (r: Scan<
    Vec<QuerySegment>,
>)
    requires
        cur.within(text@),
    ensures
        match r {
            Scan::Done(v, c) => after(
                segment_models(first@),
                more_segments_at(text@, cur.index as int),
            ) == Parsed::Done(segment_models(v@), c.index as int) && c.within(text@) && c.index
                >= cur.index,
            Scan::Miss => false,
            Scan::Fail(f, c) => more_segments_at(text@, cur.index as int) == Parsed::<
                Seq<crate::query::SegmentModel>,
            >::Fail(f, c.index as int) && c.within(text@),
        },
{
    let mut found = first;
    let mut c = cur;
    loop
        invariant
            c.within(text@),
            c.index >= cur.index,
            after(segment_models(first@), more_segments_at(text@, cur.index as int)) == after(
                segment_models(found@),
                more_segments_at(text@, c.index as int),
            ),
            more_segments_at(text@, c.index as int) is Fail ==> more_segments_at(
                text@,
                cur.index as int,
            ) == more_segments_at(text@, c.index as int),
        decreases text.len() - c.index,
    {
        if c.index < text.len() && text[c.index] == '/' {
            let c1 = step(text, c);
            match scan_segment(text, c1) {
                Scan::Done(s, c2) => {
                    proof {
                        after_joined(
                            segment_models(found@),
                            seq![s@],
                            more_segments_at(text@, c2.index as int),
                        );
                        assert(segment_models(found@.push(s)) =~= segment_models(found@)
                            + seq![s@]);
                    }
                    found.push(s);
                    c = c2;
                },
                Scan::Miss => {
                    proof {
                        after_nothing(segment_models(found@), c.index as int);
                    }
                    return Scan::Done(found, c);
                },
                Scan::Fail(f, c2) => {
                    return Scan::Fail(f, c2);
                },
            }
        } else {
            proof {
                after_nothing(segment_models(found@), c.index as int);
            }
            return Scan::Done(found, c);
        }
    }
}

/// A query at `cur`.
fn scan_query(text: &Vec<char>, cur: Cursor) -> (r: Scan<Vec<QuerySegment>>)
    requires
        cur.within(text@),
    ensures
        match r {
            Scan::Done(v, c) => query_at(text@, cur.index as int) == Parsed::Done(
                segment_models(v@),
                c.index as int,
            ) && c.within(text@) && c.index >= cur.index,
            Scan::Miss => false,
            Scan::Fail(f, c) => query_at(text@, cur.index as int) == Parsed::<
                Seq<crate::query::SegmentModel>,
            >::Fail(f, c.index as int) && c.within(text@),
        },
{
    match scan_segment(text, cur) {
        Scan::Done(s, c) => {
            let mut first: Vec<QuerySegment> = Vec::new();
            proof {
                assert(segment_models(first@.push(s)) =~= seq![s@]);
            }
            first.push(s);
            match scan_more_segments(text, c, first) {
                Scan::Done(v, c2) => Scan::Done(v, c2),
                Scan::Miss => Scan::Miss,
                Scan::Fail(f, c2) => Scan::Fail(f, c2),
            }
        },
        Scan::Miss => {
            let v: Vec<QuerySegment> = Vec::new();
            proof {
                assert(segment_models(v@) =~= Seq::empty());
            }
            Scan::Done(v, cur)
        },
        Scan::Fail(f, c) => Scan::Fail(f, c),
    }
}

/// The error for a failure at `place`.
fn failure(fault: Fault, place: Position) -> (e: Error)
    ensures
        e@ == (crate::error::ErrorModel::ParseError {
            message: fault_message(fault),
            position: place,
        }),
{
    let message = match fault {
        Fault::Entity => String::from_str("Invalid entity: '~', '_' or a digit must follow '~'"),
        Fault::Percent => String::from_str(
            "Invalid percent escape: two hexadecimal digits must follow '%'",
        ),
        Fault::Encoding => String::from_str(
            "Invalid parameter: its percent-decoded bytes are not UTF-8",
        ),
    };
    Error::ParseError { message, position: place }
}

/// The error for the input left over from `cur` on.
fn leftover(text: &Vec<char>, cur: Cursor) -> (e: Error)
    requires
        cur.within(text@),
    ensures
        e@ == (crate::error::ErrorModel::ParseError {
            message: leftover_message(text@.skip(cur.index as int)),
            position: position_at(text@, cur.index as int),
        }),
{
    let rest = string_of(text, cur.index, text.len());
    assert(text@.subrange(cur.index as int, text@.len() as int) =~= text@.skip(cur.index as int));
    let mut message = String::from_str("Can't parse query completely: '");
    push_text(&mut message, rest.as_str());
    push_text(&mut message, "'");
    Error::ParseError { message, position: position(text, cur) }
}

/// Reads `query` by the flat grammar: a path of actions. The whole text must
/// be a path: what is left over is reported with its position. The path is
/// well formed, and so can be written.
pub fn parse_query_simple(query: &str) -> (r: Result<Vec<ActionRequest>, Error>)
    ensures
        match r {
            Ok(path) => parsed_path(query@) == Ok::<_, crate::error::ErrorModel>(
                request_models(path@),
            ) && readable_path(request_models(path@)) && path_all_text(request_models(path@)),
            Err(e) => parsed_path(query@) == Err::<Seq<crate::query::RequestModel>, _>(e@),
        },
{
    let text = chars_of(query);
    proof {
        parsed_query_is_well_formed(text@);
        if path_at(text@, 0) is Done {
            readable_path_is_writable(path_at(text@, 0)->Done_0);
        }
    }
    match scan_path(&text, start(&text)) {
        Scan::Done(path, c) => {
            if c.index < text.len() {
                Err(leftover(&text, c))
            } else {
                Ok(path)
            }
        },
        Scan::Miss => Ok(Vec::new()),
        Scan::Fail(f, c) => Err(failure(f, position(&text, c))),
    }
}

/// Reads `query` by the segmented grammar. The whole text must be a query:
/// what is left over is reported with its position. The query is well
/// formed, and so can be written.
pub fn parse(query: &str) -> (r: Result<Query, Error>)
    ensures
        match r {
            Ok(q) => parsed_query(query@) == Ok::<_, crate::error::ErrorModel>(q@)
                && readable_segments(q@) && all_writable(q@),
            Err(e) => parsed_query(query@) == Err::<Seq<crate::query::SegmentModel>, _>(e@),
        },
{
    let text = chars_of(query);
    proof {
        parsed_query_is_well_formed(text@);
        if query_at(text@, 0) is Done {
            well_formed_is_writable(query_at(text@, 0)->Done_0);
        }
    }
    match scan_query(&text, start(&text)) {
        Scan::Done(segments, c) => {
            if c.index < text.len() {
                Err(leftover(&text, c))
            } else {
                Ok(Query { segments })
            }
        },
        Scan::Miss => Ok(Query::new()),
        Scan::Fail(f, c) => Err(failure(f, position(&text, c))),
    }
}

/// What a production made of the start of a text.
pub enum Prefix<T> {
    /// It matched: the value, and the text behind the match.
    Matched(T, String),
    Unmatched,
    /// It failed, with the error that `parse` reports for the failure.
    Failed(Error),
}

/// The text from `i` on, where `i` is an index of `text` or its length.
pub open spec fn rest_from(text: Seq<char>, i: int) -> Seq<char> {
    text.skip(i)
}

/// The error that reports the failure `fault` at the index `at`.
pub open spec fn failure_at(text: Seq<char>, fault: Fault, at: int) -> crate::error::ErrorModel {
    crate::error::ErrorModel::ParseError {
        message: fault_message(fault),
        position: position_at(text, at),
    }
}

fn prefix_of<T>(text: &Vec<char>, scan: Scan<T>) -> (r: Prefix<T>)
    requires
        match scan {
            Scan::Done(_, c) => c.within(text@),
            Scan::Miss => true,
            Scan::Fail(_, c) => c.within(text@),
        },
    ensures
        match scan {
            Scan::Done(v, c) => r matches Prefix::Matched(found, rest) && found == v && rest@
                == rest_from(text@, c.index as int),
            Scan::Miss => r is Unmatched,
            Scan::Fail(f, c) => r matches Prefix::Failed(e) && e@ == failure_at(
                text@,
                f,
                c.index as int,
            ),
        },
{
    match scan {
        Scan::Done(v, c) => {
            let rest = string_of(text, c.index, text.len());
            assert(text@.subrange(c.index as int, text@.len() as int) =~= text@.skip(
                c.index as int,
            ));
            Prefix::Matched(v, rest)
        },
        Scan::Miss => Prefix::Unmatched,
        Scan::Fail(f, c) => Prefix::Failed(failure(f, position(text, c))),
    }
}

/// A parameter at the start of `text`.
pub fn parameter(text: &str) -> (r: Prefix<ActionParameter>)
    ensures
        match parameter_at(text@, 0) {
            Parsed::Done(p, e) => r matches Prefix::Matched(found, rest) && found@ == p && rest@
                == rest_from(text@, e),
            Parsed::Miss => r is Unmatched,
            Parsed::Fail(f, a) => r matches Prefix::Failed(e) && e@ == failure_at(text@, f, a),
        },
{
    let chars = chars_of(text);
    prefix_of(&chars, scan_parameter(&chars, start(&chars)))
}

/// An action at the start of `text`.
pub fn parse_action(text: &str) -> (r: Prefix<ActionRequest>)
    ensures
        match action_at(text@, 0) {
            Parsed::Done(a, e) => r matches Prefix::Matched(found, rest) && found@ == a && rest@
                == rest_from(text@, e),
            Parsed::Miss => r is Unmatched,
            Parsed::Fail(f, a) => r matches Prefix::Failed(e) && e@ == failure_at(text@, f, a),
        },
{
    let chars = chars_of(text);
    prefix_of(&chars, scan_action(&chars, start(&chars)))
}

/// A path of actions at the start of `text`.
pub fn parse_action_path(text: &str) -> (r: Prefix<Vec<ActionRequest>>)
    ensures
        match path_at(text@, 0) {
            Parsed::Done(path, e) => r matches Prefix::Matched(found, rest) && request_models(
                found@,
            ) == path && rest@ == rest_from(text@, e),
            Parsed::Miss => r is Unmatched,
            Parsed::Fail(f, a) => r matches Prefix::Failed(e) && e@ == failure_at(text@, f, a),
        },
{
    let chars = chars_of(text);
    prefix_of(&chars, scan_path(&chars, start(&chars)))
}

/// A segment header at the start of `text`.
pub fn parse_segment_header(text: &str) -> (r: Prefix<SegmentHeader>)
    ensures
        match header_at(text@, 0) {
            Parsed::Done(h, e) => r matches Prefix::Matched(found, rest) && found@ == h && rest@
                == rest_from(text@, e),
            Parsed::Miss => r is Unmatched,
            Parsed::Fail(f, a) => r matches Prefix::Failed(e) && e@ == failure_at(text@, f, a),
        },
{
    let chars = chars_of(text);
    prefix_of(&chars, scan_header(&chars, start(&chars)))
}

/// A segment at the start of `text`.
pub fn parse_segment(text: &str) -> (r: Prefix<QuerySegment>)
    ensures
        match segment_at(text@, 0) {
            Parsed::Done(s, e) => r matches Prefix::Matched(found, rest) && found@ == s && rest@
                == rest_from(text@, e),
            Parsed::Miss => r is Unmatched,
            Parsed::Fail(f, a) => r matches Prefix::Failed(e) && e@ == failure_at(text@, f, a),
        },
{
    let chars = chars_of(text);
    prefix_of(&chars, scan_segment(&chars, start(&chars)))
}

/// A query at the start of `text`.
pub fn parse_query(text: &str) -> (r: Prefix<Query>)
    ensures
        match query_at(text@, 0) {
            Parsed::Done(q, e) => r matches Prefix::Matched(found, rest) && found@ == q && rest@
                == rest_from(text@, e),
            Parsed::Miss => r is Unmatched,
            Parsed::Fail(f, a) => r matches Prefix::Failed(e) && e@ == failure_at(text@, f, a),
        },
{
    let chars = chars_of(text);
    match scan_query(&chars, start(&chars)) {
        Scan::Done(segments, c) => prefix_of(&chars, Scan::Done(Query { segments }, c)),
        Scan::Miss => Prefix::Unmatched,
        Scan::Fail(f, c) => prefix_of(&chars, Scan::Fail(f, c)),
    }
}

} // verus!
