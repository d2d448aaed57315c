//! The escaping that turns a parameter's text into canonical query text.
//!
//! Letters, digits and `_` stand for themselves. `~` is written `~~` and `-`
//! is written `~_`. Every other character is written as its UTF-8 bytes, each
//! as `%` and two upper-case hexadecimal digits.
use crate::text::{chars_of, is_word_char, word_char};
use vstd::prelude::*;
use vstd::utf8::encode_utf8;

verus! {

/// The upper-case hexadecimal digit for `d`, for `d` below sixteen.
pub open spec fn hex_char(d: nat) -> char {
    if d == 0 {
        '0'
    } else if d == 1 {
        '1'
    } else if d == 2 {
        '2'
    } else if d == 3 {
        '3'
    } else if d == 4 {
        '4'
    } else if d == 5 {
        '5'
    } else if d == 6 {
        '6'
    } else if d == 7 {
        '7'
    } else if d == 8 {
        '8'
    } else if d == 9 {
        '9'
    } else if d == 10 {
        'A'
    } else if d == 11 {
        'B'
    } else if d == 12 {
        'C'
    } else if d == 13 {
        'D'
    } else if d == 14 {
        'E'
    } else {
        'F'
    }
}

/// A byte as a percent escape.
pub open spec fn escaped_byte(b: u8) -> Seq<char> {
    seq!['%', hex_char((b / 16) as nat), hex_char((b % 16) as nat)]
}

/// Bytes as percent escapes, one after the other.
pub open spec fn escaped_bytes(bytes: Seq<u8>) -> Seq<char>
    decreases bytes.len(),
{
    if bytes.len() == 0 {
        Seq::empty()
    } else {
        escaped_bytes(bytes.drop_last()) + escaped_byte(bytes.last())
    }
}

/// One character as it is written in a parameter.
pub open spec fn escaped_char(c: char) -> Seq<char> {
    if is_word_char(c) {
        seq![c]
    } else if c == '~' {
        seq!['~', '~']
    } else if c == '-' {
        seq!['~', '_']
    } else {
        escaped_bytes(encode_utf8(seq![c]))
    }
}

/// A text as it is written in a parameter.
pub open spec fn escaped(text: Seq<char>) -> Seq<char>
    decreases text.len(),
{
    if text.len() == 0 {
        Seq::empty()
    } else {
        escaped(text.drop_last()) + escaped_char(text.last())
    }
}

fn hex(d: u8) -> (c: char)
    requires
        d < 16,
    ensures
        c == hex_char(d as nat),
{
    if d == 0 {
        '0'
    } else if d == 1 {
        '1'
    } else if d == 2 {
        '2'
    } else if d == 3 {
        '3'
    } else if d == 4 {
        '4'
    } else if d == 5 {
        '5'
    } else if d == 6 {
        '6'
    } else if d == 7 {
        '7'
    } else if d == 8 {
        '8'
    } else if d == 9 {
        '9'
    } else if d == 10 {
        'A'
    } else if d == 11 {
        'B'
    } else if d == 12 {
        'C'
    } else if d == 13 {
        'D'
    } else if d == 14 {
        'E'
    } else {
        'F'
    }
}

/// Appends the percent escapes of the UTF-8 bytes of `c`.
fn push_escaped_bytes(out: &mut String, c: char)
    ensures
        final(out)@ == old(out)@ + escaped_bytes(encode_utf8(seq![c])),
{
    let mut single = String::new();
    single.push(c);
    assert(single@ == seq![c]);
    let bytes = single.as_str().as_bytes();
    let mut i: usize = 0;
    while i < bytes.len()
        invariant
            i <= bytes.len(),
            bytes@ == encode_utf8(seq![c]),
            out@ == old(out)@ + escaped_bytes(bytes@.take(i as int)),
        decreases bytes.len() - i,
    {
        let b = bytes[i];
        proof {
            assert(bytes@.take(i + 1).drop_last() == bytes@.take(i as int));
            assert(bytes@.take(i + 1).last() == b);
        }
        out.push('%');
        out.push(hex(b / 16));
        out.push(hex(b % 16));
        i += 1;
    }
    assert(bytes@.take(i as int) == bytes@);
}

/// Appends `c` as it is written in a parameter.
pub(crate) fn push_escaped_char(out: &mut String, c: char)
    ensures
        final(out)@ == old(out)@ + escaped_char(c),
{
    if word_char(c) {
        out.push(c);
    } else if c == '~' {
        out.push('~');
        out.push('~');
    } else if c == '-' {
        out.push('~');
        out.push('_');
    } else {
        push_escaped_bytes(out, c);
    }
}

/// Appends `text` as it is written in a parameter.
pub(crate) fn push_escaped(out: &mut String, text: &str)
    ensures
        final(out)@ == old(out)@ + escaped(text@),
{
    let chars = chars_of(text);
    let mut i: usize = 0;
    while i < chars.len()
        invariant
            i <= chars.len(),
            chars@ == text@,
            out@ == old(out)@ + escaped(chars@.take(i as int)),
        decreases chars.len() - i,
    {
        proof {
            assert(chars@.take(i + 1).drop_last() == chars@.take(i as int));
            assert(chars@.take(i + 1).last() == chars@[i as int]);
        }
        push_escaped_char(out, chars[i]);
        i += 1;
    }
    assert(chars@.take(i as int) == chars@);
}

} // verus!
