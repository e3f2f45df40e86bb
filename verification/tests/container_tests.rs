use json2msgpack::parser::{encode_document, JsonError};

fn enc(doc: &str) -> Result<Vec<u8>, JsonError> {
    let chars: Vec<char> = doc.chars().collect();
    let floats: Vec<Option<u64>> = Vec::new();
    encode_document(&chars, &floats)
}

/// Runs the conversion the way the command-line shell does: parse each
/// number token the reader asks a float bit pattern for, and retry.
fn enc_with_floats(doc: &str) -> Result<Vec<u8>, JsonError> {
    let chars: Vec<char> = doc.chars().collect();
    let mut floats: Vec<Option<u64>> = Vec::new();
    loop {
        match encode_document(&chars, &floats) {
            Err(JsonError::NeedFloat { start, end }) => {
                let token: String = chars[start..end].iter().collect();
                floats.push(token.parse::<f64>().ok().map(f64::to_bits));
            }
            other => return other,
        }
    }
}

#[test]
fn empty_array() {
    assert_eq!(enc("[]").unwrap(), vec![0x90]);
}

#[test]
fn empty_object() {
    assert_eq!(enc("{}").unwrap(), vec![0x80]);
}

#[test]
fn one_member_object() {
    assert_eq!(enc("{\"a\":1}").unwrap(), vec![0x81, 0xa1, 0x61, 0x01]);
}

#[test]
fn whitespace_variants_encode_identically() {
    let a = enc("{\"a\": 1}").unwrap();
    let b = enc("{ \"a\" : 1 }").unwrap();
    let c = enc("{\"a\":1}").unwrap();
    assert_eq!(a, b);
    assert_eq!(b, c);
    assert_eq!(c, vec![0x81, 0xa1, 0x61, 0x01]);
}

#[test]
fn nested_array() {
    assert_eq!(enc("[1,[2,3]]").unwrap(), vec![0x92, 0x01, 0x92, 0x02, 0x03]);
}

#[test]
fn nested_object() {
    assert_eq!(
        enc("{\"a\":{\"b\":2}}").unwrap(),
        vec![0x81, 0xa1, 0x61, 0x81, 0xa1, 0x62, 0x02]
    );
}

#[test]
fn sixteen_member_object_takes_map16() {
    let keys = "abcdefghijklmnop";
    let members: Vec<String> = keys
        .chars()
        .enumerate()
        .map(|(i, k)| format!("\"{}\":{}", k, i))
        .collect();
    let doc = format!("{{{}}}", members.join(","));
    let mut expect = vec![0xde, 0x00, 0x10];
    for (i, k) in keys.chars().enumerate() {
        expect.push(0xa1);
        expect.push(k as u8);
        expect.push(i as u8);
    }
    assert_eq!(enc(&doc).unwrap(), expect);
}

#[test]
fn fifteen_element_array_stays_fixarray() {
    let doc = format!("[{}]", (0..15).map(|i| i.to_string()).collect::<Vec<_>>().join(","));
    let mut expect = vec![0x9f];
    expect.extend(0..15u8);
    assert_eq!(enc(&doc).unwrap(), expect);
}

#[test]
fn sixteen_element_array_takes_array16() {
    let doc = format!("[{}]", (0..16).map(|i| i.to_string()).collect::<Vec<_>>().join(","));
    let mut expect = vec![0xdc, 0x00, 0x10];
    expect.extend(0..16u8);
    assert_eq!(enc(&doc).unwrap(), expect);
}

#[test]
fn trailing_comma_accepted() {
    assert_eq!(enc("[1,]").unwrap(), vec![0x91, 0x01]);
}

#[test]
fn missing_comma_accepted() {
    assert_eq!(enc("[1 2]").unwrap(), vec![0x92, 0x01, 0x02]);
}

#[test]
fn whitespace_terminates_number_token() {
    assert_eq!(enc("[1 ,2]").unwrap(), vec![0x92, 0x01, 0x02]);
}

#[test]
fn mixed_scalars_in_array() {
    assert_eq!(
        enc("[null,true,false,\"a\",200]").unwrap(),
        vec![0x95, 0xc0, 0xc3, 0xc2, 0xa1, 0x61, 0xcc, 0xc8]
    );
}

#[test]
fn float_needs_bit_pattern() {
    assert_eq!(enc("1.5"), Err(JsonError::NeedFloat { start: 0, end: 3 }));
}

#[test]
fn float_encodes_with_supplied_bits() {
    let chars: Vec<char> = "1.5".chars().collect();
    let floats = vec![Some(1.5f64.to_bits())];
    assert_eq!(
        encode_document(&chars, &floats).unwrap(),
        vec![0xcb, 0x3f, 0xf8, 0x00, 0x00, 0x00, 0x00, 0x00, 0x00]
    );
}

#[test]
fn float_in_array_through_retry_loop() {
    assert_eq!(
        enc_with_floats("[1.5,2]").unwrap(),
        vec![0x92, 0xcb, 0x3f, 0xf8, 0x00, 0x00, 0x00, 0x00, 0x00, 0x00, 0x02]
    );
}

#[test]
fn exponent_number_through_retry_loop() {
    // 1e2 fails every integer trial and becomes the float 100.0.
    assert_eq!(
        enc_with_floats("1e2").unwrap(),
        vec![0xcb, 0x40, 0x59, 0x00, 0x00, 0x00, 0x00, 0x00, 0x00]
    );
}

#[test]
fn unparseable_number_token() {
    let chars: Vec<char> = "1x".chars().collect();
    let floats = vec![None];
    assert_eq!(
        encode_document(&chars, &floats),
        Err(JsonError::BadNumber { at: 0 })
    );
}

#[test]
fn bare_minus_is_no_number() {
    assert_eq!(enc_with_floats("-"), Err(JsonError::BadNumber { at: 0 }));
}

#[test]
fn object_key_must_be_string() {
    assert_eq!(enc("{1:2}"), Err(JsonError::UnexpectedChar { at: 1 }));
}

#[test]
fn missing_colon() {
    assert_eq!(enc("{\"a\" 1}"), Err(JsonError::UnexpectedChar { at: 5 }));
}

#[test]
fn unclosed_array() {
    assert_eq!(enc("[1"), Err(JsonError::UnexpectedEnd { at: 2 }));
}

#[test]
fn unclosed_object() {
    assert_eq!(enc("{"), Err(JsonError::UnexpectedEnd { at: 1 }));
}

#[test]
fn comma_alone_in_array() {
    assert_eq!(enc("[,1]"), Err(JsonError::UnexpectedChar { at: 1 }));
}

#[test]
fn duplicate_keys_both_kept() {
    assert_eq!(
        enc("{\"a\":1,\"a\":2}").unwrap(),
        vec![0x82, 0xa1, 0x61, 0x01, 0xa1, 0x61, 0x02]
    );
}

#[test]
fn deep_nesting() {
    assert_eq!(
        enc("[[[[[0]]]]]").unwrap(),
        vec![0x91, 0x91, 0x91, 0x91, 0x91, 0x00]
    );
}

#[test]
fn two_floats_consumed_in_document_order() {
    assert_eq!(
        enc_with_floats("[0.5,2.5]").unwrap(),
        vec![
            0x92, 0xcb, 0x3f, 0xe0, 0x00, 0x00, 0x00, 0x00, 0x00, 0x00, 0xcb, 0x40, 0x04, 0x00,
            0x00, 0x00, 0x00, 0x00, 0x00
        ]
    );
}

#[test]
fn escaped_key_in_object() {
    assert_eq!(
        enc("{\"\\t\":0}").unwrap(),
        vec![0x81, 0xa1, 0x09, 0x00]
    );
}

#[test]
fn error_inside_member_value() {
    assert_eq!(enc("{\"a\":q}"), Err(JsonError::UnexpectedChar { at: 5 }));
}

#[test]
fn one_element_array_with_whitespace() {
    assert_eq!(enc("[ 5 ]").unwrap(), vec![0x91, 0x05]);
}

#[test]
fn one_member_object_with_float_value() {
    assert_eq!(
        enc_with_floats("{\"x\": 0.5}").unwrap(),
        vec![0x81, 0xa1, 0x78, 0xcb, 0x3f, 0xe0, 0x00, 0x00, 0x00, 0x00, 0x00, 0x00]
    );
}
