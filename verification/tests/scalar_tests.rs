use json2msgpack::parser::{encode_document, JsonError};

fn enc(doc: &str) -> Result<Vec<u8>, JsonError> {
    let chars: Vec<char> = doc.chars().collect();
    let floats: Vec<Option<u64>> = Vec::new();
    encode_document(&chars, &floats)
}

#[test]
fn null_byte() {
    assert_eq!(enc("null").unwrap(), vec![0xc0]);
}

#[test]
fn false_byte() {
    assert_eq!(enc("false").unwrap(), vec![0xc2]);
}

#[test]
fn true_byte() {
    assert_eq!(enc("true").unwrap(), vec![0xc3]);
}

#[test]
fn fixint_zero() {
    assert_eq!(enc("0").unwrap(), vec![0x00]);
}

#[test]
fn fixint_100() {
    assert_eq!(enc("100").unwrap(), vec![0x64]);
}

#[test]
fn fixint_127() {
    assert_eq!(enc("127").unwrap(), vec![0x7f]);
}

#[test]
fn uint8_200() {
    assert_eq!(enc("200").unwrap(), vec![0xcc, 0xc8]);
}

#[test]
fn uint8_255() {
    assert_eq!(enc("255").unwrap(), vec![0xcc, 0xff]);
}

#[test]
fn uint16_256() {
    assert_eq!(enc("256").unwrap(), vec![0xcd, 0x01, 0x00]);
}

#[test]
fn uint16_65535() {
    assert_eq!(enc("65535").unwrap(), vec![0xcd, 0xff, 0xff]);
}

#[test]
fn uint32_65536() {
    assert_eq!(enc("65536").unwrap(), vec![0xce, 0x00, 0x01, 0x00, 0x00]);
}

#[test]
fn uint32_max() {
    assert_eq!(enc("4294967295").unwrap(), vec![0xce, 0xff, 0xff, 0xff, 0xff]);
}

#[test]
fn uint64_4294967296() {
    assert_eq!(
        enc("4294967296").unwrap(),
        vec![0xcf, 0x00, 0x00, 0x00, 0x01, 0x00, 0x00, 0x00, 0x00]
    );
}

#[test]
fn uint64_max() {
    assert_eq!(
        enc("18446744073709551615").unwrap(),
        vec![0xcf, 0xff, 0xff, 0xff, 0xff, 0xff, 0xff, 0xff, 0xff]
    );
}

#[test]
fn neg_100_two_byte_form() {
    assert_eq!(enc("-100").unwrap(), vec![0xd0, 0x9c]);
}

#[test]
fn neg_1() {
    assert_eq!(enc("-1").unwrap(), vec![0xd0, 0xff]);
}

#[test]
fn neg_128() {
    assert_eq!(enc("-128").unwrap(), vec![0xd0, 0x80]);
}

#[test]
fn neg_129() {
    assert_eq!(enc("-129").unwrap(), vec![0xd1, 0xff, 0x7f]);
}

#[test]
fn neg_32768() {
    assert_eq!(enc("-32768").unwrap(), vec![0xd1, 0x80, 0x00]);
}

#[test]
fn neg_32769() {
    assert_eq!(enc("-32769").unwrap(), vec![0xd2, 0xff, 0xff, 0x7f, 0xff]);
}

#[test]
fn neg_2147483649() {
    assert_eq!(
        enc("-2147483649").unwrap(),
        vec![0xd3, 0xff, 0xff, 0xff, 0xff, 0x7f, 0xff, 0xff, 0xff]
    );
}

#[test]
fn int64_min() {
    assert_eq!(
        enc("-9223372036854775808").unwrap(),
        vec![0xd3, 0x80, 0x00, 0x00, 0x00, 0x00, 0x00, 0x00, 0x00]
    );
}

#[test]
fn minus_zero_is_fixint_zero() {
    assert_eq!(enc("-0").unwrap(), vec![0x00]);
}

#[test]
fn leading_zeros_accepted_by_trial_parse() {
    assert_eq!(enc("007").unwrap(), vec![0x07]);
}

#[test]
fn below_int64_min_needs_float() {
    assert_eq!(
        enc("-9223372036854775809"),
        Err(JsonError::NeedFloat { start: 0, end: 20 })
    );
}

#[test]
fn misspelled_keyword() {
    assert_eq!(enc("falsx"), Err(JsonError::BadKeyword { at: 0 }));
}

#[test]
fn truncated_keyword() {
    assert_eq!(enc("nul"), Err(JsonError::UnexpectedEnd { at: 3 }));
}

#[test]
fn empty_document() {
    assert_eq!(enc(""), Err(JsonError::UnexpectedEnd { at: 0 }));
}

#[test]
fn whitespace_only_document() {
    assert_eq!(enc("  \t\n"), Err(JsonError::UnexpectedEnd { at: 4 }));
}

#[test]
fn bad_value_start() {
    assert_eq!(enc("x"), Err(JsonError::UnexpectedChar { at: 0 }));
}

#[test]
fn trailing_text_is_ignored() {
    assert_eq!(enc("1 x").unwrap(), vec![0x01]);
}
