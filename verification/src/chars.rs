//! Character classes.

use vstd::prelude::*;

verus! {

/// The Unicode `White_Space` property.
pub open spec fn is_white(c: char) -> bool {
    let u = c as u32;
    ||| 0x09 <= u <= 0x0d
    ||| u == 0x20
    ||| u == 0x85
    ||| u == 0xa0
    ||| u == 0x1680
    ||| 0x2000 <= u <= 0x200a
    ||| u == 0x2028
    ||| u == 0x2029
    ||| u == 0x202f
    ||| u == 0x205f
    ||| u == 0x3000
}

/// Number of bytes `c` takes in UTF-8.
pub open spec fn width(c: char) -> nat {
    let u = c as u32;
    if u < 0x80 {
        1
    } else if u < 0x800 {
        2
    } else if u < 0x10000 {
        3
    } else {
        4
    }
}

pub open spec fn is_digit(c: char) -> bool {
    '0' <= c <= '9'
}

pub open spec fn is_lower(c: char) -> bool {
    'a' <= c <= 'z'
}

pub open spec fn is_upper(c: char) -> bool {
    'A' <= c <= 'Z'
}

/// True if `c` is white space.
pub fn is_whitespace(c: char) -> (r: bool)
    ensures
        r == is_white(c),
{
    let u: u32 = c as u32;
    (0x09 <= u && u <= 0x0d) || u == 0x20 || u == 0x85 || u == 0xa0 || u == 0x1680 || (0x2000 <= u
        && u <= 0x200a) || u == 0x2028 || u == 0x2029 || u == 0x202f || u == 0x205f || u == 0x3000
}

/// Number of bytes `c` takes in UTF-8.
pub fn utf8_width(c: char) -> (r: usize)
    ensures
        r == width(c),
        1 <= r <= 4,
{
    let u: u32 = c as u32;
    if u < 0x80 {
        1
    } else if u < 0x800 {
        2
    } else if u < 0x10000 {
        3
    } else {
        4
    }
}

/// `c` with an ASCII capital letter made small.
pub open spec fn lower(c: char) -> char {
    if is_upper(c) {
        ((c as u8) + 32) as char
    } else {
        c
    }
}

pub fn to_lower(c: char) -> (r: char)
    ensures
        r == lower(c),
{
    if 'A' <= c && c <= 'Z' {
        (c as u8 + 32) as char
    } else {
        c
    }
}

/// True if `c` is in the ASCII range.
pub open spec fn is_ascii(c: char) -> bool {
    (c as u32) < 0x80
}

/// True if `c` is a visible ASCII character.
pub open spec fn is_graphic(c: char) -> bool {
    '!' <= c <= '~'
}

/// True if `c` is an ASCII digit, in any base up to 16.
pub open spec fn is_hex(c: char) -> bool {
    is_digit(c) || 'a' <= c <= 'f' || 'A' <= c <= 'F'
}

pub fn digit_char(c: char) -> (r: bool)
    ensures
        r == is_digit(c),
{
    '0' <= c && c <= '9'
}

pub fn hex_char(c: char) -> (r: bool)
    ensures
        r == is_hex(c),
{
    ('0' <= c && c <= '9') || ('a' <= c && c <= 'f') || ('A' <= c && c <= 'F')
}

/// `String::push` of the standard library puts one character at the end of the string.
pub assume_specification[ String::push ](s: &mut String, c: char)
    ensures
        final(s)@ == old(s)@.push(c),
;

/// The Unicode `Alphabetic` property, as `char::is_alphabetic` of the standard library has it.
pub uninterp spec fn alphabetic(c: char) -> bool;

/// `char::is_alphabetic` of the standard library tells whether a character is alphabetic; among
/// the ASCII characters the letters are.
pub assume_specification[ char::is_alphabetic ](c: char) -> (r: bool)
    ensures
        r == alphabetic(c),
        is_ascii(c) ==> r == (is_lower(c) || is_upper(c)),
;

/// The Unicode `Uppercase` property, as `char::is_uppercase` of the standard library has it.
pub uninterp spec fn uppercase(c: char) -> bool;

/// `char::is_uppercase` of the standard library tells whether a character is upper case; among
/// the ASCII characters the capital letters are.
pub assume_specification[ char::is_uppercase ](c: char) -> (r: bool)
    ensures
        r == uppercase(c),
        is_ascii(c) ==> r == is_upper(c),
;

/// The Unicode `Lowercase` property, as `char::is_lowercase` of the standard library has it.
pub uninterp spec fn lowercase(c: char) -> bool;

/// `char::is_lowercase` of the standard library tells whether a character is lower case; among
/// the ASCII characters the small letters are.
pub assume_specification[ char::is_lowercase ](c: char) -> (r: bool)
    ensures
        r == lowercase(c),
        is_ascii(c) ==> r == is_lower(c),
;

/// The lower-case mapping of `c`, as `char::to_lowercase` of the standard library has it.
pub uninterp spec fn small(c: char) -> Seq<char>;

/// `char::to_lowercase` of the standard library gives the lower-case mapping of a character; an
/// ASCII character becomes one character, a capital letter the small one and any other itself.
#[verifier::external_body]
pub(crate) fn small_of(c: char) -> (r: Vec<char>)
    ensures
        r@ == small(c),
        is_ascii(c) ==> r@ == seq![lower(c)],
{
    c.to_lowercase().collect()
}

/// The upper-case mapping of `c`, as `char::to_uppercase` of the standard library has it.
pub uninterp spec fn capital(c: char) -> Seq<char>;

/// `c` with an ASCII small letter made a capital one.
pub open spec fn upper(c: char) -> char {
    if is_lower(c) {
        ((c as u8) - 32) as char
    } else {
        c
    }
}

/// `char::to_uppercase` of the standard library gives the upper-case mapping of a character; an
/// ASCII character becomes one character, a small letter the capital one and any other itself.
#[verifier::external_body]
pub(crate) fn capital_of(c: char) -> (r: Vec<char>)
    ensures
        r@ == capital(c),
        is_ascii(c) ==> r@ == seq![upper(c)],
{
    c.to_uppercase().collect()
}

/// The lower-case mapping of a text, as `str::to_lowercase` of the standard library has it.
pub uninterp spec fn small_text(s: Seq<char>) -> Seq<char>;

/// `str::to_lowercase` of the standard library gives the lower-case mapping of a text, which can
/// depend on where a letter stands; in a text of ASCII characters each capital letter becomes the
/// small one.
#[verifier::external_body]
pub(crate) fn small_text_of(s: &str) -> (r: String)
    ensures
        r@ == small_text(s@),
        (forall|i: int| 0 <= i < s@.len() ==> is_ascii(#[trigger] s@[i])) ==> r@ == s@.map_values(
            |c: char| lower(c),
        ),
{
    s.to_lowercase()
}

/// Making a letter small or capital moves it by the distance of the two alphabets, and other
/// characters stay as they are.
pub proof fn law_letters(c: char)
    ensures
        is_upper(c) <==> 65 <= c as u32 <= 90,
        is_lower(c) <==> 97 <= c as u32 <= 122,
        is_upper(c) ==> lower(c) as u32 == c as u32 + 32,
        is_lower(c) ==> upper(c) as u32 == c as u32 - 32,
        !is_upper(c) ==> lower(c) == c,
        !is_lower(c) ==> upper(c) == c,
        lower(lower(c)) == lower(c),
        is_ascii(c) ==> is_ascii(lower(c)) && is_ascii(upper(c)),
        is_upper(c) ==> upper(lower(c)) == c,
        is_lower(c) ==> lower(upper(c)) == c,
{
}

/// The digits are ten, hexadecimal ones twenty-two with the letters of both cases, and visible
/// ASCII characters those between the space and the last one.
pub proof fn law_digits(c: char)
    ensures
        is_digit(c) <==> 48 <= c as u32 <= 57,
        is_hex(c) <==> 48 <= c as u32 <= 57 || 65 <= c as u32 <= 70 || 97 <= c as u32 <= 102,
        is_graphic(c) <==> 33 <= c as u32 <= 126,
        is_ascii(c) <==> (c as u32) <= 127,
{
}

/// A character takes as many bytes as its UTF-8 encoding has.
pub proof fn law_width(c: char)
    ensures
        vstd::utf8::encode_utf8(seq![c]).len() == width(c),
        1 <= width(c) <= 4,
{
    vstd::utf8::char_is_scalar(c);
    let s = seq![c];
    assert(s.drop_first() == Seq::<char>::empty());
    assert(vstd::utf8::encode_utf8(s.drop_first()).len() == 0);
}

} // verus!
