use bytes::Bytes;
use mini_redis::frame::Frame;
use mini_redis::wire::DecodeError;

fn bulk(s: &str) -> Frame {
    Frame::Bulk(Bytes::copy_from_slice(s.as_bytes()))
}

#[test]
fn encode_simple_string() {
    assert_eq!(Frame::Simple("OK".to_string()).encode(), b"+OK\r\n".to_vec());
}

#[test]
fn encode_error_string() {
    assert_eq!(Frame::Error("ERR bad".to_string()).encode(), b"-ERR bad\r\n".to_vec());
}

#[test]
fn encode_integers() {
    assert_eq!(Frame::Integer(0).encode(), b":0\r\n".to_vec());
    assert_eq!(Frame::Integer(1000).encode(), b":1000\r\n".to_vec());
    assert_eq!(Frame::Integer(-42).encode(), b":-42\r\n".to_vec());
    assert_eq!(Frame::Integer(i64::MAX).encode(), b":9223372036854775807\r\n".to_vec());
    assert_eq!(Frame::Integer(i64::MIN).encode(), b":-9223372036854775808\r\n".to_vec());
}

#[test]
fn encode_bulk_and_null() {
    assert_eq!(bulk("hello").encode(), b"$5\r\nhello\r\n".to_vec());
    assert_eq!(bulk("").encode(), b"$0\r\n\r\n".to_vec());
    assert_eq!(Frame::Null.encode(), b"$-1\r\n".to_vec());
}

#[test]
fn encode_array_of_bulk() {
    let mut f = Frame::array();
    f.push_bulk(Bytes::from("set"));
    f.push_bulk(Bytes::from("k"));
    f.push_int(7);
    assert_eq!(f.encode(), b"*3\r\n$3\r\nset\r\n$1\r\nk\r\n:7\r\n".to_vec());
}

#[test]
fn decode_each_kind() {
    assert_eq!(Frame::decode(b"+OK\r\n"), Ok((Frame::Simple("OK".to_string()), 5)));
    assert_eq!(Frame::decode(b"-oops\r\n"), Ok((Frame::Error("oops".to_string()), 7)));
    assert_eq!(Frame::decode(b":-17\r\n"), Ok((Frame::Integer(-17), 6)));
    assert_eq!(Frame::decode(b"$3\r\nabc\r\n"), Ok((bulk("abc"), 9)));
    assert_eq!(Frame::decode(b"$-1\r\n"), Ok((Frame::Null, 5)));
    assert_eq!(Frame::decode(b"*-1\r\n"), Ok((Frame::Null, 5)));
    assert_eq!(
        Frame::decode(b"*2\r\n$1\r\na\r\n:2\r\n"),
        Ok((Frame::Array(vec![bulk("a"), Frame::Integer(2)]), 15))
    );
    assert_eq!(Frame::decode(b"*0\r\n"), Ok((Frame::Array(vec![]), 4)));
}

#[test]
fn decode_stops_at_the_end_of_the_frame() {
    assert_eq!(Frame::decode(b"+OK\r\n+NEXT\r\n"), Ok((Frame::Simple("OK".to_string()), 5)));
    assert_eq!(Frame::decode_at(b"+OK\r\n:5\r\n", 5), Ok((Frame::Integer(5), 9)));
}

#[test]
fn decode_nested_arrays() {
    let inner = Frame::Array(vec![Frame::Integer(1), Frame::Array(vec![Frame::Null])]);
    let outer = Frame::Array(vec![inner, bulk("x")]);
    let bytes = outer.encode();
    assert_eq!(Frame::decode(&bytes), Ok((outer, bytes.len())));
}

#[test]
fn decode_needs_more_data() {
    assert_eq!(Frame::decode(b""), Err(DecodeError::NeedMoreData));
    assert_eq!(Frame::decode(b"+OK"), Err(DecodeError::NeedMoreData));
    assert_eq!(Frame::decode(b"+OK\r"), Err(DecodeError::NeedMoreData));
    assert_eq!(Frame::decode(b"$5\r\nhel"), Err(DecodeError::NeedMoreData));
    assert_eq!(Frame::decode(b"$5\r\nhello\r"), Err(DecodeError::NeedMoreData));
    assert_eq!(Frame::decode(b"*2\r\n:1\r\n"), Err(DecodeError::NeedMoreData));
    assert_eq!(Frame::decode(b"$9223372036854775807\r\n"), Err(DecodeError::NeedMoreData));
}

#[test]
fn decode_corrupt() {
    // an unknown type byte
    assert_eq!(Frame::decode(b"?what\r\n"), Err(DecodeError::Corrupt));
    // negative lengths other than the null sentinel
    assert_eq!(Frame::decode(b"*-2\r\n"), Err(DecodeError::Corrupt));
    assert_eq!(Frame::decode(b"$-5\r\n"), Err(DecodeError::Corrupt));
    // not a number where one is expected
    assert_eq!(Frame::decode(b":12a\r\n"), Err(DecodeError::Corrupt));
    assert_eq!(Frame::decode(b":\r\n"), Err(DecodeError::Corrupt));
    assert_eq!(Frame::decode(b":-\r\n"), Err(DecodeError::Corrupt));
    assert_eq!(Frame::decode(b":+5\r\n"), Err(DecodeError::Corrupt));
    assert_eq!(Frame::decode(b"$x\r\n"), Err(DecodeError::Corrupt));
    // out of the signed 64-bit range
    assert_eq!(Frame::decode(b":9223372036854775808\r\n"), Err(DecodeError::Corrupt));
    assert_eq!(Frame::decode(b":-9223372036854775809\r\n"), Err(DecodeError::Corrupt));
    assert_eq!(Frame::decode(b":99999999999999999999999999\r\n"), Err(DecodeError::Corrupt));
    assert_eq!(Frame::decode(b":99999999999999999999999999x\r\n"), Err(DecodeError::Corrupt));
    // malformed line terminators
    assert_eq!(Frame::decode(b"+OK\n"), Err(DecodeError::Corrupt));
    assert_eq!(Frame::decode(b"+OK\rX"), Err(DecodeError::Corrupt));
    assert_eq!(Frame::decode(b"$3\r\nabcXY"), Err(DecodeError::Corrupt));
    // text that is not UTF-8
    assert_eq!(Frame::decode(b"+\xff\xfe\r\n"), Err(DecodeError::Corrupt));
    // a corrupt element spoils the array
    assert_eq!(Frame::decode(b"*1\r\n?\r\n"), Err(DecodeError::Corrupt));
}

#[test]
fn decode_accepts_leading_zeros_and_extremes() {
    assert_eq!(Frame::decode(b":007\r\n"), Ok((Frame::Integer(7), 6)));
    assert_eq!(Frame::decode(b":-0\r\n"), Ok((Frame::Integer(0), 5)));
    assert_eq!(
        Frame::decode(b":-9223372036854775808\r\n"),
        Ok((Frame::Integer(i64::MIN), 23))
    );
    assert_eq!(
        Frame::decode(b":9223372036854775807\r\n"),
        Ok((Frame::Integer(i64::MAX), 22))
    );
}

fn samples() -> Vec<Frame> {
    vec![
        Frame::Simple("OK".to_string()),
        Frame::Simple("".to_string()),
        Frame::Simple("h\u{e9}llo \u{1F600}".to_string()),
        Frame::Error("ERR unknown command".to_string()),
        Frame::Integer(0),
        Frame::Integer(-1),
        Frame::Integer(i64::MIN),
        Frame::Integer(i64::MAX),
        bulk(""),
        bulk("with\r\ninside"),
        Frame::Bulk(Bytes::from(vec![0u8, 255, 13, 10, 36])),
        Frame::Null,
        Frame::Array(vec![]),
        Frame::Array(vec![bulk("set"), bulk("key"), bulk("value"), bulk("PX"), bulk("10")]),
        Frame::Array(vec![
            Frame::Array(vec![Frame::Null, Frame::Integer(3)]),
            Frame::Simple("x".to_string()),
        ]),
    ]
}

#[test]
fn round_trip_on_samples() {
    for f in samples() {
        let bytes = f.encode();
        assert_eq!(Frame::decode(&bytes), Ok((f.clone(), bytes.len())));
        let mut longer = bytes.clone();
        longer.extend_from_slice(b"+more\r\n");
        assert_eq!(Frame::decode(&longer), Ok((f, bytes.len())));
    }
}

#[test]
fn every_strict_prefix_needs_more_data() {
    for f in samples() {
        let bytes = f.encode();
        for k in 0..bytes.len() {
            assert_eq!(Frame::decode(&bytes[..k]), Err(DecodeError::NeedMoreData));
        }
    }
}

#[test]
fn simple_text_with_line_break_does_not_round_trip() {
    let f = Frame::Simple("a\r\nb".to_string());
    let bytes = f.encode();
    assert_eq!(Frame::decode(&bytes), Ok((Frame::Simple("a".to_string()), 4)));
}

#[test]
fn clone_and_equality() {
    for f in samples() {
        assert!(f.same_as(&f.duplicate()));
        assert_eq!(f.clone(), f);
    }
    assert_ne!(Frame::Null, bulk(""));
    assert_ne!(Frame::Simple("a".to_string()), Frame::Error("a".to_string()));
    assert_ne!(Frame::Array(vec![Frame::Null]), Frame::Array(vec![]));
    assert_ne!(Frame::Array(vec![Frame::Integer(1)]), Frame::Array(vec![Frame::Integer(2)]));
}
