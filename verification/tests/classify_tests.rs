use genj::classify::is_text_bytes;

#[test]
fn nul_in_valid_utf8_is_binary() {
    assert!(!is_text_bytes(b"hello\0world"));
}

#[test]
fn nul_alone_is_binary() {
    assert!(!is_text_bytes(&[0u8]));
}

#[test]
fn valid_utf8_nul_free_is_text() {
    assert!(is_text_bytes("plain ascii".as_bytes()));
    assert!(is_text_bytes("accents: \u{e9}\u{e8}\u{20ac}".as_bytes()));
    assert!(is_text_bytes("\u{4e2d}\u{6587} \u{1f600}".as_bytes()));
}

#[test]
fn empty_buffer_is_text() {
    assert!(is_text_bytes(b""));
}

#[test]
fn invalid_utf8_is_binary() {
    assert!(!is_text_bytes(&[0xff, 0xfe, 0x00, 0x01]));
    assert!(!is_text_bytes(&[0x61, 0x62, 0x80]));
    // lone continuation byte
    assert!(!is_text_bytes(&[0x80]));
    // truncated two-byte sequence
    assert!(!is_text_bytes(&[0xc3]));
}

#[test]
fn overlong_encoding_is_binary() {
    // 0xC0 0xAF would be an overlong encoding of '/'
    assert!(!is_text_bytes(&[0xc0, 0xaf]));
    assert!(!is_text_bytes(&[0xc1, 0x81]));
}

#[test]
fn surrogate_range_is_binary() {
    // 0xED 0xA0 0x80 would encode a UTF-16 surrogate code point
    assert!(!is_text_bytes(&[0xed, 0xa0, 0x80]));
    // 0xED 0x9F 0xBF is the last code point below the surrogates
    assert!(is_text_bytes(&[0xed, 0x9f, 0xbf]));
}

#[test]
fn four_byte_boundaries() {
    // U+10FFFF, the largest scalar value
    assert!(is_text_bytes(&[0xf4, 0x8f, 0xbf, 0xbf]));
    // one past U+10FFFF
    assert!(!is_text_bytes(&[0xf4, 0x90, 0x80, 0x80]));
    // U+10000, the first four-byte scalar
    assert!(is_text_bytes(&[0xf0, 0x90, 0x80, 0x80]));
    // overlong four-byte form
    assert!(!is_text_bytes(&[0xf0, 0x8f, 0xbf, 0xbf]));
}
