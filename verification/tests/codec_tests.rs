use record_stream::codec::{encode_record, parse_frame};
use record_stream::emitter::make_record;
use record_stream::record::Record;

#[test]
fn encode_emitted_record_exact_bytes() {
    let r = make_record(0, 1700000000);
    let bytes = encode_record(&r);
    let text = String::from_utf8(bytes).unwrap();
    assert_eq!(text, "{\"index\":0,\"timestamp\":1700000000,\"message\":\"Message 1\"}");
}

#[test]
fn encode_negative_timestamp() {
    let r = Record { index: 3, timestamp: -5, message: String::from("x") };
    let text = String::from_utf8(encode_record(&r)).unwrap();
    assert_eq!(text, "{\"index\":3,\"timestamp\":-5,\"message\":\"x\"}");
}

#[test]
fn encode_escapes_specials() {
    let r = Record { index: 1, timestamp: 0, message: String::from("a\"b\\c\nd\te\rf") };
    let text = String::from_utf8(encode_record(&r)).unwrap();
    assert_eq!(
        text,
        "{\"index\":1,\"timestamp\":0,\"message\":\"a\\\"b\\\\c\\nd\\te\\rf\"}"
    );
}

#[test]
fn parse_canonical_frame() {
    let got = parse_frame("{\"index\":7,\"timestamp\":42,\"message\":\"hey\"}").unwrap();
    assert_eq!(got.index, 7);
    assert_eq!(got.timestamp, 42);
    assert_eq!(got.message, "hey");
}

#[test]
fn parse_tolerates_whitespace() {
    let got =
        parse_frame("{ \"index\" : 7 ,\t\"timestamp\" : -1 , \"message\" : \"hi\" }").unwrap();
    assert_eq!(got.index, 7);
    assert_eq!(got.timestamp, -1);
    assert_eq!(got.message, "hi");
}

#[test]
fn round_trip_unicode_message() {
    let r = Record { index: 0, timestamp: 9, message: String::from("\u{8fd9}\u{662f}\u{7b2c} 1 \u{6761}\u{6d88}\u{606f}") };
    let bytes = encode_record(&r);
    let text = String::from_utf8(bytes).unwrap();
    let got = parse_frame(&text).unwrap();
    assert_eq!(got.index, r.index);
    assert_eq!(got.timestamp, r.timestamp);
    assert_eq!(got.message, r.message);
}

#[test]
fn round_trip_extreme_numbers() {
    let r = Record { index: u64::MAX, timestamp: i64::MIN, message: String::from("m") };
    let text = String::from_utf8(encode_record(&r)).unwrap();
    let got = parse_frame(&text).unwrap();
    assert_eq!(got.index, u64::MAX);
    assert_eq!(got.timestamp, i64::MIN);
    let r2 = Record { index: 0, timestamp: i64::MAX, message: String::from("m") };
    let got2 = parse_frame(&String::from_utf8(encode_record(&r2)).unwrap()).unwrap();
    assert_eq!(got2.timestamp, i64::MAX);
}

#[test]
fn round_trip_escape_heavy_message() {
    let r = Record { index: 2, timestamp: 1, message: String::from("{\"a\": \\ \u{8}\u{c}}\n") };
    let got = parse_frame(&String::from_utf8(encode_record(&r)).unwrap()).unwrap();
    assert_eq!(got.message, r.message);
}

#[test]
fn parse_rejects_non_numeric_index() {
    assert!(parse_frame("{\"index\":\"not-a-number\",\"timestamp\":1,\"message\":\"x\"}")
        .is_none());
}

#[test]
fn parse_rejects_index_overflow() {
    assert!(
        parse_frame("{\"index\":99999999999999999999,\"timestamp\":1,\"message\":\"x\"}")
            .is_none()
    );
}

#[test]
fn parse_rejects_trailing_garbage() {
    assert!(parse_frame("{\"index\":1,\"timestamp\":1,\"message\":\"x\"}z").is_none());
}

#[test]
fn parse_rejects_missing_key() {
    assert!(parse_frame("{\"timestamp\":1,\"message\":\"x\"}").is_none());
    assert!(parse_frame("{\"index\":1,\"message\":\"x\"}").is_none());
}

#[test]
fn parse_rejects_unicode_escape_form() {
    assert!(parse_frame("{\"index\":1,\"timestamp\":1,\"message\":\"\\u0041\"}").is_none());
}

#[test]
fn parse_accepts_slash_escape() {
    let got = parse_frame("{\"index\":1,\"timestamp\":1,\"message\":\"a\\/b\"}").unwrap();
    assert_eq!(got.message, "a/b");
}
