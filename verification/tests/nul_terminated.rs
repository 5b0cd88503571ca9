use string_utilities::to_cstr_best_effort;
use string_utilities::EmbeddedNul;
use string_utilities::NulTerminatedBuffer;

#[test]
fn cstr_cuts_at_the_embedded_nul() {
    let (buffer, diagnostic) = to_cstr_best_effort("AB\0CD");
    assert_eq!(buffer.as_bytes_with_nul(), &b"AB\0"[..]);
    assert_eq!(buffer.as_bytes_with_nul().len(), 3);
    assert_eq!(buffer.as_bytes(), &b"AB"[..]);
    assert!(diagnostic.is_some());
    assert_eq!(diagnostic, Some(EmbeddedNul { position: 2 }));
}

#[test]
fn cstr_keeps_text_without_nul_whole() {
    let (buffer, diagnostic) = to_cstr_best_effort("hello");
    assert_eq!(buffer.as_bytes_with_nul(), &b"hello\0"[..]);
    assert_eq!(buffer.as_bytes(), &b"hello"[..]);
    assert_eq!(diagnostic, None);
}

#[test]
fn cstr_of_empty_text_is_the_terminator() {
    let (buffer, diagnostic) = to_cstr_best_effort("");
    assert_eq!(buffer.as_bytes_with_nul(), &[0u8][..]);
    assert!(buffer.as_bytes().is_empty());
    assert_eq!(diagnostic, None);
}

#[test]
fn cstr_of_leading_nul_is_empty_with_diagnostic() {
    let (buffer, diagnostic) = to_cstr_best_effort("\0abc");
    assert_eq!(buffer.as_bytes_with_nul(), &[0u8][..]);
    assert_eq!(diagnostic, Some(EmbeddedNul { position: 0 }));
}

#[test]
fn cstr_of_trailing_nul_drops_it_with_diagnostic() {
    let (buffer, diagnostic) = to_cstr_best_effort("abc\0");
    assert_eq!(buffer.as_bytes_with_nul(), &b"abc\0"[..]);
    assert_eq!(diagnostic, Some(EmbeddedNul { position: 3 }));
}

#[test]
fn cstr_cuts_at_the_first_of_several_nuls() {
    let (buffer, diagnostic) = to_cstr_best_effort("a\0b\0c");
    assert_eq!(buffer.into_bytes_with_nul(), vec![b'a', 0]);
    assert_eq!(diagnostic, Some(EmbeddedNul { position: 1 }));
}

#[test]
fn cstr_counts_the_position_in_bytes() {
    let (buffer, diagnostic) = to_cstr_best_effort("é€\0x");
    assert_eq!(buffer.as_bytes(), "é€".as_bytes());
    assert_eq!(diagnostic, Some(EmbeddedNul { position: 5 }));
}

#[test]
fn cstr_output_has_one_nul_at_its_end() {
    for text in ["", "a", "AB\0CD", "\0", "\0\0", "héllo", "hé\0llo\0"] {
        let (buffer, diagnostic) = to_cstr_best_effort(text);
        let bytes = buffer.as_bytes_with_nul();
        assert_eq!(bytes.last(), Some(&0u8));
        assert!(!bytes[..bytes.len() - 1].contains(&0u8));
        assert!(text.as_bytes().starts_with(buffer.as_bytes()));
        assert_eq!(diagnostic.is_some(), text.contains('\0'));
        if diagnostic.is_none() {
            assert_eq!(buffer.as_bytes(), text.as_bytes());
        }
    }
}

#[test]
fn embedded_nul_message() {
    let diagnostic = EmbeddedNul { position: 2 };
    assert_eq!(diagnostic.message(), "Embedded nul in message");
}

#[test]
fn buffer_new_accepts_bytes_without_nul() {
    let buffer = NulTerminatedBuffer::new(b"raw \xFF bytes").unwrap();
    assert_eq!(buffer.as_bytes(), &b"raw \xFF bytes"[..]);
    assert_eq!(buffer.as_bytes_with_nul(), &b"raw \xFF bytes\0"[..]);
}

#[test]
fn buffer_new_reports_the_first_nul() {
    let result = NulTerminatedBuffer::new(&[1, 2, 3, 0, 5, 0]);
    assert_eq!(result.err(), Some(EmbeddedNul { position: 3 }));
}
