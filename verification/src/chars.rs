//! Character classification and conversion.

use vstd::prelude::*;

verus! {

/// Why a character was refused.
#[derive(Debug, Clone, Copy, PartialEq, Eq, Structural)]
pub enum CharErr {
    NotAscii,
    NotDigit,
    NotBase16Digit,
    NotLetter,
    NotPrintable,
}

/// ASCII upper-casing: `a..=z` map to `A..=Z`, every other character is unchanged.
pub open spec fn spec_ascii_upper(c: char) -> char {
    if 'a' <= c <= 'z' {
        ((c as u32) - 32) as char
    } else {
        c
    }
}

/// ASCII lower-casing: `A..=Z` map to `a..=z`, every other character is unchanged.
pub open spec fn spec_ascii_lower(c: char) -> char {
    if 'A' <= c <= 'Z' {
        ((c as u32) + 32) as char
    } else {
        c
    }
}

/// The characters refused by the case conversions: those outside `'A'..='z'`.
pub open spec fn outside_letter_range(c: char) -> bool {
    c < 'A' || c > 'z'
}

/// Converts `ch` to upper case. Characters outside `'A'..='z'` are refused;
/// the six punctuation characters between `'Z'` and `'a'` come back unchanged.
pub fn to_uppercase(ch: char) -> (r: Result<char, CharErr>)
    ensures
        outside_letter_range(ch) ==> r == Err::<char, CharErr>(CharErr::NotLetter),
        !outside_letter_range(ch) ==> r == Ok::<char, CharErr>(spec_ascii_upper(ch)),
{
    if ch < 'A' || ch > 'z' {
        return Err(CharErr::NotLetter);
    }
    if 'a' <= ch && ch <= 'z' {
        let code: u8 = ch as u8;
        Ok((code - 32) as char)
    } else {
        Ok(ch)
    }
}


/// Converts `ch` to lower case. Characters outside `'A'..='z'` are refused;
/// the six punctuation characters between `'Z'` and `'a'` come back unchanged.
pub fn to_lowercase(ch: char) -> (r: Result<char, CharErr>)
    ensures
        outside_letter_range(ch) ==> r == Err::<char, CharErr>(CharErr::NotLetter),
        !outside_letter_range(ch) ==> r == Ok::<char, CharErr>(spec_ascii_lower(ch)),
{
    if ch < 'A' || ch > 'z' {
        return Err(CharErr::NotLetter);
    }
    if 'A' <= ch && ch <= 'Z' {
        let code: u8 = ch as u8;
        Ok((code + 32) as char)
    } else {
        Ok(ch)
    }
}

/// Case conversion of an accepted character: upper-casing is idempotent, and
/// lower-casing after upper-casing gives the lower-case form.
pub proof fn lemma_case_conversion_laws(c: char)
    requires
        !outside_letter_range(c),
    ensures
        spec_ascii_upper(spec_ascii_upper(c)) == spec_ascii_upper(c),
        spec_ascii_lower(spec_ascii_lower(c)) == spec_ascii_lower(c),
        spec_ascii_lower(spec_ascii_upper(c)) == spec_ascii_lower(c),
        spec_ascii_upper(spec_ascii_lower(c)) == spec_ascii_upper(c),
        !outside_letter_range(spec_ascii_upper(c)),
        !outside_letter_range(spec_ascii_lower(c)),
{
}

/// Control characters (general category Cc): U+0000..=U+001F and U+007F..=U+009F.
pub open spec fn is_control(c: char) -> bool {
    c <= '\u{1f}' || ('\u{7f}' <= c && c <= '\u{9f}')
}

/// The decision made before a character is printed: only control characters
/// are passed on (`Ok`); every other character is refused as not printable.
pub fn char_to_print(ch: char) -> (r: Result<char, CharErr>)
    ensures
        is_control(ch) ==> r == Ok::<char, CharErr>(ch),
        !is_control(ch) ==> r == Err::<char, CharErr>(CharErr::NotPrintable),
{
    if ch <= '\u{1f}' || ('\u{7f}' <= ch && ch <= '\u{9f}') {
        Ok(ch)
    } else {
        Err(CharErr::NotPrintable)
    }
}

/// ASCII characters are those below U+0080.
pub open spec fn is_ascii_char(c: char) -> bool {
    (c as u32) < 128
}

/// The value of `c` as a decimal digit, if it is one.
pub open spec fn decimal_value(c: char) -> Option<u32> {
    if '0' <= c <= '9' {
        Some((c as u32 - '0' as u32) as u32)
    } else {
        None
    }
}

/// The value of `c` as a hexadecimal digit (either case), if it is one.
pub open spec fn hex_value(c: char) -> Option<u32> {
    if '0' <= c <= '9' {
        Some((c as u32 - '0' as u32) as u32)
    } else if 'a' <= c <= 'f' {
        Some((c as u32 - 'a' as u32 + 10) as u32)
    } else if 'A' <= c <= 'F' {
        Some((c as u32 - 'A' as u32 + 10) as u32)
    } else {
        None
    }
}

/// Reads a decimal digit. Non-ASCII input is refused as such; any other
/// character that is not `0..=9` is refused as not a digit.
pub fn char_to_number(ch: char) -> (r: Result<u32, CharErr>)
    ensures
        !is_ascii_char(ch) ==> r == Err::<u32, CharErr>(CharErr::NotAscii),
        is_ascii_char(ch) && decimal_value(ch) is None ==> r == Err::<u32, CharErr>(CharErr::NotDigit),
        is_ascii_char(ch) && decimal_value(ch) is Some ==> r == Ok::<u32, CharErr>(decimal_value(ch)->0),
{
    let code: u32 = ch as u32;
    if code >= 128 {
        return Err(CharErr::NotAscii);
    }
    if '0' <= ch && ch <= '9' {
        Ok(code - 48)
    } else {
        Err(CharErr::NotDigit)
    }
}

/// Reads a hexadecimal digit (`0..=9`, `a..=f`, `A..=F`). Non-ASCII input is
/// refused as such; any other character is refused as not a base-16 digit.
pub fn char_to_number_hex(ch: char) -> (r: Result<u32, CharErr>)
    ensures
        !is_ascii_char(ch) ==> r == Err::<u32, CharErr>(CharErr::NotAscii),
        is_ascii_char(ch) && hex_value(ch) is None ==> r == Err::<u32, CharErr>(CharErr::NotBase16Digit),
        is_ascii_char(ch) && hex_value(ch) is Some ==> r == Ok::<u32, CharErr>(hex_value(ch)->0),
{
    let code: u32 = ch as u32;
    if code >= 128 {
        return Err(CharErr::NotAscii);
    }
    if '0' <= ch && ch <= '9' {
        Ok(code - 48)
    } else if 'a' <= ch && ch <= 'f' {
        Ok(code - 87)
    } else if 'A' <= ch && ch <= 'F' {
        Ok(code - 55)
    } else {
        Err(CharErr::NotBase16Digit)
    }
}

/// Every decimal digit is a hexadecimal digit of the same value.
pub proof fn lemma_decimal_digits_are_hex(c: char)
    requires
        decimal_value(c) is Some,
    ensures
        hex_value(c) == decimal_value(c),
        is_ascii_char(c),
{
}

/// The sentence reported for each refusal.
pub open spec fn spec_char_err_message(err: CharErr) -> Seq<char> {
    match err {
        CharErr::NotAscii => "Character is not part of Ascii"@,
        CharErr::NotDigit => "Character is not a digit"@,
        CharErr::NotBase16Digit => "Character is not a base 16 digit"@,
        CharErr::NotLetter => "Character is not a letter"@,
        CharErr::NotPrintable => "Character is not printable"@,
    }
}

impl CharErr {
    /// The sentence reported for this refusal.
    pub fn message(&self) -> (r: &'static str)
        ensures
            r@ == spec_char_err_message(*self),
    {
        match self {
            CharErr::NotAscii => "Character is not part of Ascii",
            CharErr::NotDigit => "Character is not a digit",
            CharErr::NotBase16Digit => "Character is not a base 16 digit",
            CharErr::NotLetter => "Character is not a letter",
            CharErr::NotPrintable => "Character is not printable",
        }
    }
}

} // verus!
