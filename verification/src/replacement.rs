//! Reference mapping functions for the 8-bit encoder: printable US-ASCII with
//! a caller-chosen replacement byte for everything else.

use vstd::prelude::*;

verus! {

/// Suggested replacement byte: the ASCII asterisk.
#[allow(non_upper_case_globals)]
pub const DefaultUsAsciiReplacementCharacter: u8 = 42;

/// True when `character` is printable US-ASCII other than space and delete.
pub open spec fn is_printable_us_ascii(character: char) -> bool {
    0x21 <= character as u32 <= 0x7E
}

/// The byte that stands for `character` in printable US-ASCII: the character
/// itself where it is printable, `replacement` otherwise.
pub open spec fn us_ascii_printable_byte(character: char, replacement: u8) -> u8 {
    if is_printable_us_ascii(character) {
        character as u8
    } else {
        replacement
    }
}

/// Maps a character to printable US-ASCII, without control codes, space and
/// delete: what is not printable becomes the replacement byte.
pub fn to_8bit_encoding_replacement_function_us_ascii_printable(
    character: char,
    us_ascii_replacement_character: u8,
) -> (byte: u8)
    requires
        us_ascii_replacement_character <= 127,
    ensures
        byte == us_ascii_printable_byte(character, us_ascii_replacement_character),
        byte <= 127,
{
    if '\x21' <= character && character <= '\x7E' {
        character as u8
    } else {
        us_ascii_replacement_character
    }
}

/// Maps a character to US-ASCII. The policy is that of the printable
/// mapping: what is not printable becomes the replacement byte.
pub fn to_8bit_encoding_replacement_function_us_ascii(
    character: char,
    us_ascii_replacement_character: u8,
) -> (byte: u8)
    requires
        us_ascii_replacement_character <= 127,
    ensures
        byte == us_ascii_printable_byte(character, us_ascii_replacement_character),
        byte <= 127,
{
    if '\x21' <= character && character <= '\x7E' {
        character as u8
    } else {
        us_ascii_replacement_character
    }
}

} // verus!
