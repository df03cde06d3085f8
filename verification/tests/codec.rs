use minikv::decode::DecodeError;
use minikv::encode::encode;
use minikv::{DecodeOutcome, Frame};

fn bulk(s: &str) -> Frame {
    Frame::Bulk(s.as_bytes().to_vec())
}

fn decode_ready(bytes: &[u8]) -> (Frame, usize) {
    match Frame::decode(&bytes.to_vec()) {
        DecodeOutcome::Ready(f, c) => (f, c),
        DecodeOutcome::Incomplete => panic!("unexpected Incomplete"),
        DecodeOutcome::Malformed(e) => panic!("unexpected Malformed: {:?}", e),
    }
}

#[test]
fn encode_simple() {
    let f = Frame::Simple("OK".to_string());
    assert_eq!(encode(&f), b"+OK\r\n".to_vec());
}

#[test]
fn encode_error() {
    let f = Frame::Error("ERR oops".to_string());
    assert_eq!(encode(&f), b"-ERR oops\r\n".to_vec());
}

#[test]
fn encode_integer() {
    assert_eq!(encode(&Frame::Integer(0)), b":0\r\n".to_vec());
    assert_eq!(encode(&Frame::Integer(1234)), b":1234\r\n".to_vec());
    assert_eq!(encode(&Frame::Integer(-42)), b":-42\r\n".to_vec());
    assert_eq!(
        encode(&Frame::Integer(i64::MIN)),
        b":-9223372036854775808\r\n".to_vec()
    );
    assert_eq!(
        encode(&Frame::Integer(i64::MAX)),
        b":9223372036854775807\r\n".to_vec()
    );
}

#[test]
fn encode_bulk_and_null() {
    assert_eq!(encode(&bulk("hello")), b"$5\r\nhello\r\n".to_vec());
    assert_eq!(encode(&bulk("")), b"$0\r\n\r\n".to_vec());
    assert_eq!(encode(&Frame::Null), b"$-1\r\n".to_vec());
}

#[test]
fn encode_array() {
    let f = Frame::Array(vec![bulk("SET"), bulk("k"), bulk("v")]);
    assert_eq!(
        encode(&f),
        b"*3\r\n$3\r\nSET\r\n$1\r\nk\r\n$1\r\nv\r\n".to_vec()
    );
}

#[test]
fn decode_simple() {
    let (f, c) = decode_ready(b"+OK\r\n");
    assert_eq!(c, 5);
    match f {
        Frame::Simple(s) => assert_eq!(s, "OK"),
        _ => panic!("wrong variant"),
    }
}

#[test]
fn decode_integer_negative() {
    let (f, c) = decode_ready(b":-42\r\n");
    assert_eq!(c, 6);
    match f {
        Frame::Integer(v) => assert_eq!(v, -42),
        _ => panic!("wrong variant"),
    }
}

#[test]
fn decode_bulk_binary_payload() {
    // A bulk payload may contain terminator bytes; its length is explicit.
    let (f, c) = decode_ready(b"$4\r\na\r\nb\r\n");
    assert_eq!(c, 10);
    match f {
        Frame::Bulk(v) => assert_eq!(v, b"a\r\nb".to_vec()),
        _ => panic!("wrong variant"),
    }
}

#[test]
fn decode_null() {
    let (f, c) = decode_ready(b"$-1\r\n");
    assert_eq!(c, 5);
    assert!(matches!(f, Frame::Null));
}

#[test]
fn decode_leaves_trailing_bytes() {
    let (f, c) = decode_ready(b"+OK\r\n:7\r\n");
    assert_eq!(c, 5);
    assert!(matches!(f, Frame::Simple(_)));
}

#[test]
fn round_trip_nested_array() {
    let f = Frame::Array(vec![
        Frame::Simple("a".to_string()),
        Frame::Integer(-5),
        Frame::Null,
        Frame::Array(vec![bulk("x")]),
    ]);
    let e = encode(&f);
    let (g, c) = decode_ready(&e);
    assert_eq!(c, e.len());
    assert_eq!(encode(&g), e);
}

#[test]
fn every_strict_prefix_is_incomplete() {
    let f = Frame::Array(vec![bulk("SET"), bulk("key"), bulk("value")]);
    let e = encode(&f);
    for k in 0..e.len() {
        let prefix = e[..k].to_vec();
        assert!(
            matches!(Frame::decode(&prefix), DecodeOutcome::Incomplete),
            "prefix of {} bytes not Incomplete",
            k
        );
    }
    let (g, c) = decode_ready(&e);
    assert_eq!(c, e.len());
    assert_eq!(encode(&g), e);
}

#[test]
fn empty_buffer_is_incomplete() {
    assert!(matches!(
        Frame::decode(&Vec::new()),
        DecodeOutcome::Incomplete
    ));
}

#[test]
fn unknown_marker_is_malformed() {
    assert!(matches!(
        Frame::decode(&b"!oops\r\n".to_vec()),
        DecodeOutcome::Malformed(DecodeError::UnknownMarker)
    ));
}

#[test]
fn bad_integer_is_malformed() {
    assert!(matches!(
        Frame::decode(&b":12a\r\n".to_vec()),
        DecodeOutcome::Malformed(DecodeError::BadInteger)
    ));
    assert!(matches!(
        Frame::decode(&b":\r\n".to_vec()),
        DecodeOutcome::Malformed(DecodeError::BadInteger)
    ));
    // One past i64::MAX.
    assert!(matches!(
        Frame::decode(&b":9223372036854775808\r\n".to_vec()),
        DecodeOutcome::Malformed(DecodeError::BadInteger)
    ));
}

#[test]
fn bad_length_is_malformed() {
    assert!(matches!(
        Frame::decode(&b"$12x\r\n".to_vec()),
        DecodeOutcome::Malformed(DecodeError::BadLength)
    ));
    assert!(matches!(
        Frame::decode(&b"$99999999999\r\n".to_vec()),
        DecodeOutcome::Malformed(DecodeError::BadLength)
    ));
    assert!(matches!(
        Frame::decode(&b"*-3\r\n".to_vec()),
        DecodeOutcome::Malformed(DecodeError::BadLength)
    ));
}

#[test]
fn missing_terminator_is_malformed() {
    assert!(matches!(
        Frame::decode(&b"$2\r\nhello\r\n".to_vec()),
        DecodeOutcome::Malformed(DecodeError::MissingTerminator)
    ));
}

#[test]
fn bad_text_is_malformed() {
    assert!(matches!(
        Frame::decode(&b"+a\x80b\r\n".to_vec()),
        DecodeOutcome::Malformed(DecodeError::BadText)
    ));
}

#[test]
fn incomplete_bulk_payload() {
    assert!(matches!(
        Frame::decode(&b"$5\r\nhel".to_vec()),
        DecodeOutcome::Incomplete
    ));
}

#[test]
fn incomplete_array_elements() {
    assert!(matches!(
        Frame::decode(&b"*2\r\n:5\r\n".to_vec()),
        DecodeOutcome::Incomplete
    ));
}
