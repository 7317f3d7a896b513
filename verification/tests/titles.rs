use linkgraph::title::{cleanup_name, decode_title, unescape, DecodeError};

#[test]
fn escaped_apostrophe() {
    assert_eq!(cleanup_name("O\\'Brien").unwrap(), "O'Brien");
}

#[test]
fn underscore_becomes_space() {
    assert_eq!(cleanup_name("New_York_City").unwrap(), "New York City");
    assert_eq!(cleanup_name("_").unwrap(), " ");
}

#[test]
fn decoded_title_decodes_to_itself() {
    let once = cleanup_name("O\\'Brien_\\\"Jr\\\"").unwrap();
    assert_eq!(once, "O'Brien \"Jr\"");
    assert_eq!(cleanup_name(&once).unwrap(), once);
    assert_eq!(cleanup_name("Zürich 東京").unwrap(), "Zürich 東京");
    assert_eq!(cleanup_name("").unwrap(), "");
}

#[test]
fn letter_escapes() {
    assert_eq!(cleanup_name("a\\bb").unwrap(), "a\u{8}b");
    assert_eq!(cleanup_name("a\\fb").unwrap(), "a\u{c}b");
    assert_eq!(cleanup_name("a\\nb").unwrap(), "a\nb");
    assert_eq!(cleanup_name("a\\rb").unwrap(), "a\rb");
    assert_eq!(cleanup_name("a\\tb").unwrap(), "a\tb");
    assert_eq!(cleanup_name("a\\\\b").unwrap(), "a\\b");
    assert_eq!(cleanup_name("a\\\"b").unwrap(), "a\"b");
    assert_eq!(cleanup_name("\\\\_").unwrap(), "\\ ");
}

#[test]
fn hex_escapes() {
    assert_eq!(cleanup_name("\\x41").unwrap(), "A");
    assert_eq!(cleanup_name("\\x7a\\x7A").unwrap(), "zz");
    assert_eq!(cleanup_name("Caf\\xc3\\xa9").unwrap(), "Café");
    assert_eq!(cleanup_name("Caf\\xC3\\xA9_au_lait").unwrap(), "Café au lait");
    assert_eq!(cleanup_name("\\xe2\\x80\\x93").unwrap(), "\u{2013}");
    assert_eq!(unescape(b"\\x00\\xff\\x5f").unwrap(), vec![0x00, 0xff, 0x5f]);
}

#[test]
fn multi_byte_characters_pass_through() {
    assert_eq!(cleanup_name("Zürich_(Kanton)").unwrap(), "Zürich (Kanton)");
    assert_eq!(cleanup_name("東京_都").unwrap(), "東京 都");
    assert_eq!(decode_title("naïve".as_bytes()).unwrap(), "naïve");
}

#[test]
fn unfinished_escape() {
    assert_eq!(cleanup_name("abc\\").unwrap_err(), DecodeError::UnfinishedEscape);
    assert_eq!(cleanup_name("\\x").unwrap_err(), DecodeError::UnfinishedEscape);
    assert_eq!(cleanup_name("\\x4").unwrap_err(), DecodeError::UnfinishedEscape);
}

#[test]
fn unknown_escape() {
    assert_eq!(cleanup_name("a\\qb").unwrap_err(), DecodeError::UnknownEscape);
    assert_eq!(cleanup_name("\\0").unwrap_err(), DecodeError::UnknownEscape);
    assert_eq!(cleanup_name("\\é").unwrap_err(), DecodeError::UnknownEscape);
}

#[test]
fn bad_hex_digit() {
    assert_eq!(cleanup_name("\\x4g").unwrap_err(), DecodeError::BadHexDigit);
    assert_eq!(cleanup_name("\\xzz").unwrap_err(), DecodeError::BadHexDigit);
    assert_eq!(cleanup_name("\\x+5").unwrap_err(), DecodeError::BadHexDigit);
}

#[test]
fn invalid_utf8() {
    assert_eq!(cleanup_name("\\xff").unwrap_err(), DecodeError::InvalidUtf8);
    assert_eq!(cleanup_name("\\xc3").unwrap_err(), DecodeError::InvalidUtf8);
    assert_eq!(decode_title(&[0x80]).unwrap_err(), DecodeError::InvalidUtf8);
}

#[test]
fn first_fault_is_reported() {
    assert_eq!(cleanup_name("\\q\\x4g").unwrap_err(), DecodeError::UnknownEscape);
    assert_eq!(cleanup_name("\\xff\\q").unwrap_err(), DecodeError::UnknownEscape);
}
