use json2msgpack::parser::{encode_document, JsonError};

fn enc(doc: &str) -> Result<Vec<u8>, JsonError> {
    let chars: Vec<char> = doc.chars().collect();
    let floats: Vec<Option<u64>> = Vec::new();
    encode_document(&chars, &floats)
}

#[test]
fn empty_string() {
    assert_eq!(enc("\"\"").unwrap(), vec![0xa0]);
}

#[test]
fn one_char_string() {
    assert_eq!(enc("\"a\"").unwrap(), vec![0xa1, 0x61]);
}

#[test]
fn fixstr_31_chars() {
    let doc = format!("\"{}\"", "a".repeat(31));
    let mut expect = vec![0xbf];
    expect.extend(std::iter::repeat(0x61).take(31));
    assert_eq!(enc(&doc).unwrap(), expect);
}

#[test]
fn str8_32_chars() {
    let doc = format!("\"{}\"", "a".repeat(32));
    let mut expect = vec![0xd9, 32];
    expect.extend(std::iter::repeat(0x61).take(32));
    assert_eq!(enc(&doc).unwrap(), expect);
}

#[test]
fn str8_255_chars() {
    let doc = format!("\"{}\"", "b".repeat(255));
    let mut expect = vec![0xd9, 255];
    expect.extend(std::iter::repeat(0x62).take(255));
    assert_eq!(enc(&doc).unwrap(), expect);
}

#[test]
fn str16_256_chars() {
    let doc = format!("\"{}\"", "b".repeat(256));
    let mut expect = vec![0xda, 0x01, 0x00];
    expect.extend(std::iter::repeat(0x62).take(256));
    assert_eq!(enc(&doc).unwrap(), expect);
}

#[test]
fn newline_escape() {
    assert_eq!(enc("\"\\n\"").unwrap(), vec![0xa1, 0x0a]);
}

#[test]
fn all_simple_escapes() {
    assert_eq!(
        enc("\"\\\"\\\\\\/\\b\\f\\n\\r\\t\"").unwrap(),
        vec![0xa8, 0x22, 0x5c, 0x2f, 0x08, 0x0c, 0x0a, 0x0d, 0x09]
    );
}

#[test]
fn unicode_escape_ascii() {
    assert_eq!(enc("\"\\u0041\"").unwrap(), vec![0xa1, 0x41]);
}

#[test]
fn unicode_escape_two_byte() {
    assert_eq!(enc("\"\\u00e9\"").unwrap(), vec![0xa2, 0xc3, 0xa9]);
}

#[test]
fn unicode_escape_three_byte() {
    assert_eq!(enc("\"\\u20aC\"").unwrap(), vec![0xa3, 0xe2, 0x82, 0xac]);
}

#[test]
fn raw_two_byte_char() {
    assert_eq!(enc("\"\u{e9}\"").unwrap(), vec![0xa2, 0xc3, 0xa9]);
}

#[test]
fn raw_four_byte_char() {
    assert_eq!(enc("\"\u{1f600}\"").unwrap(), vec![0xa4, 0xf0, 0x9f, 0x98, 0x80]);
}

#[test]
fn surrogate_escape_rejected() {
    assert_eq!(enc("\"\\ud800\""), Err(JsonError::BadEscape { at: 1 }));
}

#[test]
fn unknown_escape_rejected() {
    assert_eq!(enc("\"\\x\""), Err(JsonError::BadEscape { at: 1 }));
}

#[test]
fn non_hex_in_unicode_escape() {
    assert_eq!(enc("\"\\u12g4\""), Err(JsonError::BadEscape { at: 1 }));
}

#[test]
fn raw_control_char_rejected() {
    assert_eq!(enc("\"\u{1}\""), Err(JsonError::UnexpectedChar { at: 1 }));
}

#[test]
fn unterminated_string() {
    assert_eq!(enc("\"abc"), Err(JsonError::UnexpectedEnd { at: 4 }));
}

#[test]
fn truncated_unicode_escape() {
    assert_eq!(enc("\"\\u00"), Err(JsonError::UnexpectedEnd { at: 1 }));
}
