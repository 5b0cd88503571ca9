use string_utilities::to_8bit_encoding_replacement_function_us_ascii;
use string_utilities::to_8bit_encoding_replacement_function_us_ascii_printable;
use string_utilities::DefaultUsAsciiReplacementCharacter;

#[test]
fn default_replacement_is_the_asterisk() {
    assert_eq!(DefaultUsAsciiReplacementCharacter, b'*');
    assert_eq!(DefaultUsAsciiReplacementCharacter, 42);
}

#[test]
fn printable_mapping_replaces_space_and_delete() {
    assert_eq!(to_8bit_encoding_replacement_function_us_ascii_printable('\x20', b'*'), b'*');
    assert_eq!(to_8bit_encoding_replacement_function_us_ascii_printable('\x7F', b'*'), b'*');
}

#[test]
fn printable_mapping_keeps_the_ends_of_the_printable_range() {
    assert_eq!(to_8bit_encoding_replacement_function_us_ascii_printable('\x21', b'*'), 0x21);
    assert_eq!(to_8bit_encoding_replacement_function_us_ascii_printable('\x7E', b'*'), 0x7E);
    assert_eq!(to_8bit_encoding_replacement_function_us_ascii_printable('A', b'?'), b'A');
}

#[test]
fn printable_mapping_replaces_what_is_not_ascii() {
    assert_eq!(to_8bit_encoding_replacement_function_us_ascii_printable('\u{80}', b'*'), b'*');
    assert_eq!(to_8bit_encoding_replacement_function_us_ascii_printable('é', b'*'), b'*');
    assert_eq!(to_8bit_encoding_replacement_function_us_ascii_printable('€', b'?'), b'?');
    assert_eq!(to_8bit_encoding_replacement_function_us_ascii_printable('\u{121}', b'*'), b'*');
    assert_eq!(to_8bit_encoding_replacement_function_us_ascii_printable('\u{10FFFF}', b'*'), b'*');
}

#[test]
fn printable_mapping_replaces_control_characters() {
    assert_eq!(to_8bit_encoding_replacement_function_us_ascii_printable('\0', b'*'), b'*');
    assert_eq!(to_8bit_encoding_replacement_function_us_ascii_printable('\n', b'*'), b'*');
    assert_eq!(to_8bit_encoding_replacement_function_us_ascii_printable('\x1F', 0), 0);
    assert_eq!(to_8bit_encoding_replacement_function_us_ascii_printable('\x1F', 127), 127);
}

#[test]
fn us_ascii_mapping_follows_the_same_policy() {
    assert_eq!(to_8bit_encoding_replacement_function_us_ascii('\x20', b'*'), b'*');
    assert_eq!(to_8bit_encoding_replacement_function_us_ascii('\x7F', b'*'), b'*');
    assert_eq!(to_8bit_encoding_replacement_function_us_ascii('\x21', b'*'), 0x21);
    assert_eq!(to_8bit_encoding_replacement_function_us_ascii('\x7E', b'*'), 0x7E);
    assert_eq!(to_8bit_encoding_replacement_function_us_ascii('é', b'*'), b'*');
    assert_eq!(to_8bit_encoding_replacement_function_us_ascii('\u{10FFFF}', b'#'), b'#');
}

#[test]
fn both_mappings_agree_on_every_character() {
    for code in 0u32..=0x10FFFF {
        if let Some(character) = char::from_u32(code) {
            let printable = to_8bit_encoding_replacement_function_us_ascii_printable(character, b'*');
            let general = to_8bit_encoding_replacement_function_us_ascii(character, b'*');
            assert_eq!(printable, general);
            if (0x21..=0x7E).contains(&code) {
                assert_eq!(u32::from(printable), code);
            } else {
                assert_eq!(printable, b'*');
            }
        }
    }
}
