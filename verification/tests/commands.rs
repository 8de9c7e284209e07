use bytes::Bytes;
use mini_redis::cmd::get::Get;
use mini_redis::cmd::publish::Publish;
use mini_redis::cmd::set::{bytes_from_str, duration_from_ms, SetCommand};
use mini_redis::cmd::subscribe::Subscribe;
use mini_redis::cmd::unsubscribe::Unsubscribe;
use mini_redis::cmd::Command;
use mini_redis::frame::Frame;
use mini_redis::parse::{Parse, ParseError};
use std::time::Duration;

fn bulk(s: &str) -> Frame {
    Frame::Bulk(Bytes::copy_from_slice(s.as_bytes()))
}

fn request(parts: &[&str]) -> Frame {
    Frame::Array(parts.iter().map(|p| bulk(p)).collect())
}

fn arguments(parts: &[&str]) -> Parse {
    Parse::new(request(parts)).unwrap()
}

fn other(text: &str) -> ParseError {
    ParseError::Other(text.to_string())
}

#[test]
fn cursor_reads_in_order() {
    let mut p = arguments(&["name", "42", "raw"]);
    assert_eq!(p.next_string(), Ok("name".to_string()));
    assert_eq!(p.next_int(), Ok(42));
    assert_eq!(p.next_bytes(), Ok(Bytes::from("raw")));
    assert_eq!(p.finish(), Ok(()));
    assert_eq!(p.next_string(), Err(ParseError::EndOfStream));
    assert_eq!(p.next_bytes(), Err(ParseError::EndOfStream));
    assert_eq!(p.next_int(), Err(ParseError::EndOfStream));
}

#[test]
fn cursor_reports_trailing_arguments() {
    let mut p = arguments(&["a", "b"]);
    assert_eq!(p.finish(), Err(ParseError::TrailingArguments));
    p.next_bytes().unwrap();
    assert_eq!(p.finish(), Err(ParseError::TrailingArguments));
    p.next_bytes().unwrap();
    assert_eq!(p.finish(), Ok(()));
}

#[test]
fn cursor_wants_an_array_of_bulk_frames() {
    assert_eq!(
        Parse::new(Frame::Simple("PING".to_string())).err(),
        Some(other("protocol error; expected array"))
    );
    assert_eq!(Parse::new(Frame::Null).err(), Some(other("protocol error; expected array")));
    assert_eq!(
        Parse::new(Frame::Array(vec![bulk("get"), Frame::Integer(1)])).err(),
        Some(other("protocol error; expected an array of bulk frames"))
    );
    assert!(Parse::new(Frame::Array(vec![])).is_ok());
}

#[test]
fn cursor_consumes_what_it_rejects() {
    let mut p = Parse::new(Frame::Array(vec![
        Frame::Bulk(Bytes::from(vec![0xff, 0xfe])),
        bulk("12x"),
        bulk("9223372036854775808"),
        bulk("-9223372036854775808"),
    ]))
    .unwrap();
    assert_eq!(p.next_string(), Err(other("protocol error; invalid string")));
    assert_eq!(p.next_int(), Err(other("protocol error; invalid number")));
    assert_eq!(p.next_int(), Err(other("protocol error; invalid number")));
    assert_eq!(p.next_int(), Ok(i64::MIN));
    assert_eq!(p.finish(), Ok(()));
}

#[test]
fn error_messages() {
    assert_eq!(ParseError::EndOfStream.message(), "protocol error; unexpected end of stream");
    assert_eq!(
        ParseError::TrailingArguments.message(),
        "protocol error; expected end of frame, but there was more"
    );
    assert_eq!(other("boom").message(), "boom");
}

#[test]
fn set_without_ttl() {
    let mut p = arguments(&["k", "v"]);
    let s = SetCommand::parse_frames(&mut p).unwrap();
    assert_eq!(s.key(), "k");
    assert_eq!(s.value(), &Bytes::from("v"));
    assert_eq!(s.expire(), None);
    assert_eq!(p.finish(), Ok(()));
}

#[test]
fn set_with_seconds() {
    let mut p = arguments(&["k", "v", "EX", "3"]);
    let s = SetCommand::parse_frames(&mut p).unwrap();
    assert_eq!(s.expire(), Some(Duration::from_secs(3)));
    assert_eq!(s.expire(), Some(Duration::from_millis(3000)));
    assert_eq!(p.finish(), Ok(()));
}

#[test]
fn set_with_milliseconds() {
    let mut p = arguments(&["k", "v", "PX", "10"]);
    let s = SetCommand::parse_frames(&mut p).unwrap();
    assert_eq!(s.expire(), Some(Duration::from_millis(10)));
}

#[test]
fn set_with_unknown_option_is_an_error() {
    let mut p = arguments(&["k", "v", "FOO"]);
    assert_eq!(
        SetCommand::parse_frames(&mut p).unwrap_err(),
        other("currently `SET` only supports the expiration option")
    );
    let mut p = arguments(&["k", "v", "ex", "3"]);
    assert_eq!(
        SetCommand::parse_frames(&mut p).unwrap_err(),
        other("currently `SET` only supports the expiration option")
    );
    let mut p = arguments(&["k", "v", "FOO", "3"]);
    assert!(SetCommand::parse_frames(&mut p).is_err());
}

#[test]
fn set_with_incomplete_or_invalid_arguments() {
    assert_eq!(SetCommand::parse_frames(&mut arguments(&[])).unwrap_err(), ParseError::EndOfStream);
    assert_eq!(
        SetCommand::parse_frames(&mut arguments(&["k"])).unwrap_err(),
        ParseError::EndOfStream
    );
    assert_eq!(
        SetCommand::parse_frames(&mut arguments(&["k", "v", "EX"])).unwrap_err(),
        ParseError::EndOfStream
    );
    assert_eq!(
        SetCommand::parse_frames(&mut arguments(&["k", "v", "PX", "soon"])).unwrap_err(),
        other("protocol error; invalid number")
    );
    assert_eq!(
        SetCommand::parse_frames(&mut arguments(&["k", "v", "PX", "-5"])).unwrap_err(),
        other("protocol error; invalid number")
    );
    assert_eq!(
        SetCommand::parse_frames(&mut arguments(&["k", "v", "EX", "-1"])).unwrap_err(),
        other("protocol error; invalid number")
    );
    let mut p = Parse::new(Frame::Array(vec![
        bulk("k"),
        bulk("v"),
        Frame::Bulk(Bytes::from(vec![0xc0])),
    ]))
    .unwrap();
    assert_eq!(
        SetCommand::parse_frames(&mut p).unwrap_err(),
        other("protocol error; invalid string")
    );
}

#[test]
fn set_with_the_longest_ttl() {
    let mut p = arguments(&["k", "v", "EX", "9223372036854775807"]);
    let s = SetCommand::parse_frames(&mut p).unwrap();
    assert_eq!(s.expire(), Some(Duration::from_secs(i64::MAX as u64)));
}

#[test]
fn set_as_a_frame() {
    let s = SetCommand::new("k".to_string(), Bytes::from("v"), Some(Duration::from_millis(5)));
    assert_eq!(s.get_frame(), request(&["set", "k", "v"]));
}

#[test]
fn duration_from_ms_reads_unsigned_decimal() {
    assert_eq!(duration_from_ms("0"), Ok(Duration::from_millis(0)));
    assert_eq!(duration_from_ms("1500"), Ok(Duration::from_millis(1500)));
    assert_eq!(duration_from_ms("+7"), Ok(Duration::from_millis(7)));
    assert_eq!(duration_from_ms("007"), Ok(Duration::from_millis(7)));
    assert_eq!(
        duration_from_ms("18446744073709551615"),
        Ok(Duration::from_millis(u64::MAX))
    );
    assert!(duration_from_ms("18446744073709551616").is_err());
    assert!(duration_from_ms("").is_err());
    assert!(duration_from_ms("+").is_err());
    assert!(duration_from_ms("-1").is_err());
    assert!(duration_from_ms("12 ").is_err());
    assert!(duration_from_ms(" 12").is_err());
    assert!(duration_from_ms("1_000").is_err());
    assert!(duration_from_ms("ten").is_err());
}

#[test]
fn bytes_from_str_keeps_the_text() {
    assert_eq!(bytes_from_str("hello"), Bytes::from("hello"));
    assert_eq!(bytes_from_str(""), Bytes::new());
    assert_eq!(bytes_from_str("h\u{e9}"), Bytes::from(vec![b'h', 0xc3, 0xa9]));
}

#[test]
fn get_parses_and_frames() {
    let mut p = arguments(&["k"]);
    let g = Get::parse_frames(&mut p).unwrap();
    assert_eq!(g.key(), "k");
    assert_eq!(g.get_frame(), request(&["get", "k"]));
    assert_eq!(Get::parse_frames(&mut arguments(&[])).unwrap_err(), ParseError::EndOfStream);
    assert_eq!(Get::new("x".to_string()).key(), "x");
}

#[test]
fn publish_parses_and_frames() {
    let mut p = arguments(&["news", "hello"]);
    let c = Publish::parse_frames(&mut p).unwrap();
    assert_eq!(c.channel(), "news");
    assert_eq!(c.message(), &Bytes::from("hello"));
    assert_eq!(c.get_frame(), request(&["publish", "news", "hello"]));
    assert_eq!(
        Publish::parse_frames(&mut arguments(&["news"])).unwrap_err(),
        ParseError::EndOfStream
    );
}

#[test]
fn subscribe_wants_a_channel() {
    assert_eq!(Subscribe::parse_frames(&mut arguments(&[])).unwrap_err(), ParseError::EndOfStream);
    let c = Subscribe::parse_frames(&mut arguments(&["a", "b"])).unwrap();
    assert_eq!(c.channels(), &vec!["a".to_string(), "b".to_string()]);
    assert_eq!(c.get_frame(), request(&["subscribe", "a", "b"]));
    let mut p = Parse::new(Frame::Array(vec![bulk("a"), Frame::Bulk(Bytes::from(vec![0xff]))]))
        .unwrap();
    assert_eq!(
        Subscribe::parse_frames(&mut p).unwrap_err(),
        other("protocol error; invalid string")
    );
}

#[test]
fn unsubscribe_takes_any_number_of_channels() {
    let c = Unsubscribe::parse_frames(&mut arguments(&[])).unwrap();
    assert!(c.channels().is_empty());
    assert_eq!(c.get_frame(), request(&["unsubscribe"]));
    let c = Unsubscribe::parse_frames(&mut arguments(&["a", "b", "c"])).unwrap();
    assert_eq!(c.channels().len(), 3);
    assert_eq!(c.get_frame(), request(&["unsubscribe", "a", "b", "c"]));
}

#[test]
fn command_names_ignore_case() {
    for name in ["get", "GET", "Get", "gEt"] {
        let c = Command::from_frame(request(&[name, "k"])).unwrap();
        assert_eq!(c.get_name(), "get");
    }
    assert_eq!(Command::from_frame(request(&["SET", "k", "v"])).unwrap().get_name(), "set");
    assert_eq!(Command::from_frame(request(&["Publish", "c", "m"])).unwrap().get_name(), "publish");
    assert_eq!(Command::from_frame(request(&["SUBSCRIBE", "c"])).unwrap().get_name(), "subscribe");
    assert_eq!(
        Command::from_frame(request(&["unsubscribe"])).unwrap().get_name(),
        "unsubscribe"
    );
}

#[test]
fn command_errors() {
    assert_eq!(
        Command::from_frame(request(&["PING"])).unwrap_err(),
        other("ERR unknown command 'PING'")
    );
    assert_eq!(
        Command::from_frame(request(&["gets", "k"])).unwrap_err(),
        other("ERR unknown command 'gets'")
    );
    assert_eq!(Command::from_frame(request(&[])).unwrap_err(), ParseError::EndOfStream);
    assert_eq!(
        Command::from_frame(request(&["get", "k", "extra"])).unwrap_err(),
        ParseError::TrailingArguments
    );
    assert_eq!(
        Command::from_frame(request(&["set", "k", "v", "PX", "1", "extra"])).unwrap_err(),
        ParseError::TrailingArguments
    );
    assert_eq!(
        Command::from_frame(request(&["set", "k", "v", "FOO"])).unwrap_err(),
        other("currently `SET` only supports the expiration option")
    );
    assert_eq!(
        Command::from_frame(Frame::Integer(3)).unwrap_err(),
        other("protocol error; expected array")
    );
    assert_eq!(
        Command::from_frame(Frame::Array(vec![Frame::Null])).unwrap_err(),
        other("protocol error; expected an array of bulk frames")
    );
}

#[test]
fn command_carries_its_arguments() {
    match Command::from_frame(request(&["set", "k", "v", "PX", "10"])).unwrap() {
        Command::SetValue(s) => {
            assert_eq!(s.key(), "k");
            assert_eq!(s.value(), &Bytes::from("v"));
            assert_eq!(s.expire(), Some(Duration::from_millis(10)));
        }
        c => panic!("read as {}", c.get_name()),
    }
    match Command::from_frame(request(&["get", "k"])).unwrap() {
        Command::Get(g) => assert_eq!(g.key(), "k"),
        c => panic!("read as {}", c.get_name()),
    }
}
