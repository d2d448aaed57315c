//! Character classes of the query language, decimal numerals, and the few
//! operations on text for which the standard library is taken at its word.
use vstd::prelude::*;
use vstd::string::StringExecFns;

verus! {

/// What `char::is_alphabetic` answers for a character outside ASCII: whether
/// Unicode, in the version that the standard library holds, calls it
/// alphabetic.
pub uninterp spec fn unicode_alphabetic(c: char) -> bool;

/// What `char::is_numeric` answers for a character outside ASCII: whether
/// Unicode, in the version that the standard library holds, calls it a number.
pub uninterp spec fn unicode_numeric(c: char) -> bool;

/// A character of ASCII.
pub open spec fn is_ascii_char(c: char) -> bool {
    (c as u32) < 0x80
}

/// One of `A`..`Z` and `a`..`z`.
pub open spec fn is_ascii_letter(c: char) -> bool {
    (0x41 <= c as u32 <= 0x5a) || (0x61 <= c as u32 <= 0x7a)
}

/// A decimal digit `0`..`9`.
pub open spec fn is_dec_digit(c: char) -> bool {
    0x30 <= c as u32 <= 0x39
}

/// A hexadecimal digit, in either case.
pub open spec fn is_hex_digit(c: char) -> bool {
    is_dec_digit(c) || (0x41 <= c as u32 <= 0x46) || (0x61 <= c as u32 <= 0x66)
}

/// A letter: an ASCII letter, or a character outside ASCII that Unicode calls alphabetic.
pub open spec fn is_letter(c: char) -> bool {
    if is_ascii_char(c) {
        is_ascii_letter(c)
    } else {
        unicode_alphabetic(c)
    }
}

/// A number character: an ASCII digit, or a character outside ASCII that Unicode calls numeric.
pub open spec fn is_number(c: char) -> bool {
    if is_ascii_char(c) {
        is_dec_digit(c)
    } else {
        unicode_numeric(c)
    }
}

/// A character that may start an identifier.
pub open spec fn is_name_start(c: char) -> bool {
    is_letter(c) || c == '_'
}

/// A character of an identifier or of a plain run of a parameter.
pub open spec fn is_word_char(c: char) -> bool {
    is_letter(c) || is_number(c) || c == '_'
}

/// Taken on trust of `char::is_alphabetic`: of an ASCII character it is true
/// exactly where the character is a letter; of any other character its answer
/// is what `unicode_alphabetic` names.
pub assume_specification[ char::is_alphabetic ](c: char) -> (b: bool)
    ensures
        b == is_letter(c),
        !is_ascii_char(c) ==> b == unicode_alphabetic(c),
;

/// Taken on trust of `char::is_numeric`: of an ASCII character it is true
/// exactly where the character is a digit; of any other character its answer
/// is what `unicode_numeric` names.
pub assume_specification[ char::is_numeric ](c: char) -> (b: bool)
    ensures
        b == is_number(c),
        !is_ascii_char(c) ==> b == unicode_numeric(c),
;

/// Taken on trust of `String::push`: the string is as before, with the
/// character behind its last.
pub assume_specification[ std::string::String::push ](s: &mut std::string::String, c: char)
    ensures
        final(s)@ == old(s)@.push(c),
;

/// Whether `c` may start an identifier.
pub fn name_start(c: char) -> (b: bool)
    ensures
        b == is_name_start(c),
{
    c == '_' || c.is_alphabetic()
}

/// Whether `c` may stand in an identifier or in a plain run of a parameter.
pub fn word_char(c: char) -> (b: bool)
    ensures
        b == is_word_char(c),
{
    c == '_' || c.is_alphabetic() || c.is_numeric()
}

/// Whether `c` is one of `0`..`9`.
pub fn dec_digit(c: char) -> (b: bool)
    ensures
        b == is_dec_digit(c),
{
    '0' <= c && c <= '9'
}

/// Whether `c` is a hexadecimal digit, in either case.
pub fn hex_digit(c: char) -> (b: bool)
    ensures
        b == is_hex_digit(c),
{
    ('0' <= c && c <= '9') || ('a' <= c && c <= 'f') || ('A' <= c && c <= 'F')
}

/// The characters of a string slice, in order.
pub(crate) fn chars_of(s: &str) -> (v: Vec<char>)
    ensures
        v@ == s@,
{
    let mut v: Vec<char> = Vec::new();
    for c in it: s.chars()
        invariant
            v@ == it.seq().take(it.index() as int),
            it.seq() == s@,
    {
        v.push(c);
    }
    v
}

/// The characters `chars[from..to]` as a string.
pub(crate) fn string_of(chars: &Vec<char>, from: usize, to: usize) -> (s: String)
    requires
        from <= to <= chars.len(),
    ensures
        s@ == chars@.subrange(from as int, to as int),
{
    let mut s = String::new();
    let mut i: usize = from;
    while i < to
        invariant
            from <= i <= to <= chars.len(),
            s@ == chars@.subrange(from as int, i as int),
        decreases to - i,
    {
        s.push(chars[i]);
        i += 1;
    }
    s
}

/// The character that writes the digit `d`, for `d` below ten.
pub open spec fn digit_char(d: nat) -> char {
    if d == 0 {
        '0'
    } else if d == 1 {
        '1'
    } else if d == 2 {
        '2'
    } else if d == 3 {
        '3'
    } else if d == 4 {
        '4'
    } else if d == 5 {
        '5'
    } else if d == 6 {
        '6'
    } else if d == 7 {
        '7'
    } else if d == 8 {
        '8'
    } else {
        '9'
    }
}

/// The decimal numeral of `n`, without leading zeros.
pub open spec fn decimal(n: nat) -> Seq<char>
    decreases n,
{
    if n < 10 {
        seq![digit_char(n)]
    } else {
        decimal(n / 10).push(digit_char(n % 10))
    }
}

fn digit(d: usize) -> (c: char)
    requires
        d < 10,
    ensures
        c == digit_char(d as nat),
{
    if d == 0 {
        '0'
    } else if d == 1 {
        '1'
    } else if d == 2 {
        '2'
    } else if d == 3 {
        '3'
    } else if d == 4 {
        '4'
    } else if d == 5 {
        '5'
    } else if d == 6 {
        '6'
    } else if d == 7 {
        '7'
    } else if d == 8 {
        '8'
    } else {
        '9'
    }
}

/// Appends the decimal numeral of `n` to `s`.
pub(crate) fn push_decimal(s: &mut String, n: usize)
    ensures
        final(s)@ == old(s)@ + decimal(n as nat),
    decreases n,
{
    if n >= 10 {
        push_decimal(s, n / 10);
    }
    s.push(digit(n % 10));
}

/// Appends the characters of `tail` to `s`.
pub(crate) fn push_text(s: &mut String, tail: &str)
    ensures
        final(s)@ == old(s)@ + tail@,
{
    s.append(tail);
}

/// The number that a run of decimal digits writes.
pub open spec fn digits_value(digits: Seq<char>) -> int
    decreases digits.len(),
{
    if digits.len() == 0 {
        0
    } else {
        digits_value(digits.drop_last()) * 10 + (digits.last() as u32 - 0x30)
    }
}

/// Every character is a decimal digit.
pub open spec fn all_digits(digits: Seq<char>) -> bool {
    forall|i: int| 0 <= i < digits.len() ==> is_dec_digit(#[trigger] digits[i])
}

/// The number that `digits` writes in decimal: one digit or more, and
/// nothing else.
pub open spec fn number_of(digits: Seq<char>) -> Option<int> {
    if digits.len() > 0 && all_digits(digits) {
        Some(digits_value(digits))
    } else {
        None
    }
}

/// The integer that `text` writes in decimal: an optional `+` or `-`, then
/// one digit or more, and nothing else.
pub open spec fn integer_of(text: Seq<char>) -> Option<int> {
    if text.len() > 0 && text[0] == '-' {
        match number_of(text.skip(1)) {
            Some(v) => Some(-v),
            None => None,
        }
    } else if text.len() > 0 && text[0] == '+' {
        number_of(text.skip(1))
    } else {
        number_of(text)
    }
}

/// The `i32` that `text` writes in decimal, if it writes one.
pub open spec fn i32_of(text: Seq<char>) -> Option<i32> {
    match integer_of(text) {
        Some(v) => if i32::MIN <= v <= i32::MAX {
            Some(v as i32)
        } else {
            None
        },
        None => None,
    }
}

/// Taken on trust of `str::parse` for `i32`: it gives the number that the
/// text writes in decimal, with an optional sign in front and no other
/// character, where that number fits an `i32`, and an error for every other
/// text.
#[verifier::external_body]
pub(crate) fn parse_i32(text: &str) -> (r: Option<i32>)
    ensures
        r == i32_of(text@),
{
    match text.parse::<i32>() {
        Ok(v) => Some(v),
        Err(_) => None,
    }
}

/// `tail` is what `text` ends with.
pub open spec fn is_suffix(tail: Seq<char>, text: Seq<char>) -> bool {
    tail.len() <= text.len() && text.skip(text.len() - tail.len()) == tail
}

/// Taken on trust of `==` on `str`: it holds exactly where the two hold the
/// same characters.
#[verifier::external_body]
pub(crate) fn same_text(a: &str, b: &str) -> (r: bool)
    ensures
        r == (a@ == b@),
{
    a == b
}

/// Taken on trust of `str::ends_with` with a string for the pattern: it
/// holds exactly where `text` ends with the characters of `tail`.
#[verifier::external_body]
pub(crate) fn ends_with(text: &str, tail: &str) -> (r: bool)
    ensures
        r == is_suffix(tail@, text@),
{
    text.ends_with(tail)
}

} // verus!
