use bytes::Bytes;
use mini_redis::broker::Broker;
use mini_redis::connection::{Connection, Progress};
use mini_redis::frame::Frame;
use mini_redis::session::{Phase, Session};
use mini_redis::store::Kv;
use mini_redis::wire::DecodeError;

fn bulk(s: &str) -> Frame {
    Frame::Bulk(Bytes::copy_from_slice(s.as_bytes()))
}

fn request(parts: &[&str]) -> Frame {
    Frame::Array(parts.iter().map(|p| bulk(p)).collect())
}

fn notice(word: &str, channel: &str, n: i64) -> Frame {
    Frame::Array(vec![bulk(word), bulk(channel), Frame::Integer(n)])
}

fn message(channel: &str, payload: &str) -> Frame {
    Frame::Array(vec![bulk("message"), bulk(channel), bulk(payload)])
}

fn error(text: &str) -> Frame {
    Frame::Error(text.to_string())
}

struct Server {
    kv: Kv,
    broker: Broker,
}

impl Server {
    fn new() -> Server {
        Server { kv: Kv::new(), broker: Broker::new(16) }
    }

    fn send(&mut self, s: &mut Session, parts: &[&str], now: u64) -> Vec<Frame> {
        s.handle_frame(request(parts), &mut self.kv, &mut self.broker, now).frames
    }

    /// What the peer reads for the bytes it wrote.
    fn exchange(&mut self, s: &mut Session, written: &[u8], now: u64) -> Vec<u8> {
        let mut conn = Connection::new();
        conn.feed(written);
        let mut out = Vec::new();
        loop {
            match conn.advance(true) {
                Ok(Progress::Frame(f)) => {
                    for r in s.handle_frame(f, &mut self.kv, &mut self.broker, now).frames {
                        out.extend(Connection::write_frame(&r));
                    }
                }
                Ok(Progress::End) => return out,
                other => panic!("{:?}", other),
            }
        }
    }
}

#[test]
fn set_then_get_on_the_wire() {
    let mut server = Server::new();
    let mut s = Session::new();
    assert_eq!(
        server.exchange(&mut s, b"*3\r\n$3\r\nSET\r\n$1\r\na\r\n$1\r\n1\r\n", 0),
        b"+OK\r\n".to_vec()
    );
    assert_eq!(
        server.exchange(&mut s, b"*2\r\n$3\r\nGET\r\n$1\r\na\r\n", 0),
        b"$1\r\n1\r\n".to_vec()
    );
    assert_eq!(
        server.exchange(&mut s, b"*2\r\n$3\r\nGET\r\n$7\r\nmissing\r\n", 0),
        b"$-1\r\n".to_vec()
    );
    assert_eq!(s.phase(), Phase::Idle);
}

#[test]
fn several_requests_in_one_write_are_answered_in_order() {
    let mut server = Server::new();
    let mut s = Session::new();
    let mut written = b"*3\r\n$3\r\nset\r\n$1\r\nk\r\n$2\r\nv1\r\n".to_vec();
    written.extend_from_slice(b"*2\r\n$3\r\nget\r\n$1\r\nk\r\n");
    written.extend_from_slice(b"*1\r\n$4\r\nPING\r\n");
    assert_eq!(
        server.exchange(&mut s, &written, 0),
        b"+OK\r\n$2\r\nv1\r\n-ERR unknown command 'PING'\r\n".to_vec()
    );
}

#[test]
fn set_with_ttl_through_the_session() {
    let mut server = Server::new();
    let mut s = Session::new();
    let reply = s.handle_frame(
        request(&["SET", "k", "v", "PX", "10"]),
        &mut server.kv,
        &mut server.broker,
        100,
    );
    assert_eq!(reply.frames, vec![Frame::Simple("OK".to_string())]);
    assert!(reply.wake_sweeper);
    assert_eq!(server.send(&mut s, &["GET", "k"], 109), vec![bulk("v")]);
    assert_eq!(server.send(&mut s, &["GET", "k"], 110), vec![Frame::Null]);
    let reply = s.handle_frame(
        request(&["SET", "j", "v", "EX", "1"]),
        &mut server.kv,
        &mut server.broker,
        100,
    );
    assert!(!reply.wake_sweeper);
    assert_eq!(server.send(&mut s, &["GET", "j"], 1099), vec![bulk("v")]);
    assert_eq!(server.send(&mut s, &["GET", "j"], 1100), vec![Frame::Null]);
}

#[test]
fn rejected_commands_get_one_error_frame() {
    let mut server = Server::new();
    let mut s = Session::new();
    assert_eq!(
        server.send(&mut s, &["SET", "k", "v", "FOO"], 0),
        vec![error("currently `SET` only supports the expiration option")]
    );
    assert_eq!(server.send(&mut s, &["GET", "k"], 0), vec![Frame::Null]);
    assert_eq!(
        server.send(&mut s, &["GET"], 0),
        vec![error("protocol error; unexpected end of stream")]
    );
    assert_eq!(
        server.send(&mut s, &["GET", "a", "b"], 0),
        vec![error("protocol error; expected end of frame, but there was more")]
    );
    assert_eq!(
        s.handle_frame(Frame::Simple("GET".to_string()), &mut server.kv, &mut server.broker, 0)
            .frames,
        vec![error("protocol error; expected array")]
    );
    assert_eq!(s.phase(), Phase::Idle);
}

#[test]
fn publish_reports_the_subscribers() {
    let mut server = Server::new();
    let mut publisher = Session::new();
    let mut a = Session::new();
    let mut b = Session::new();
    assert_eq!(server.send(&mut publisher, &["PUBLISH", "foo", "m0"], 0), vec![Frame::Integer(0)]);
    assert_eq!(server.send(&mut a, &["SUBSCRIBE", "foo"], 0), vec![notice("subscribe", "foo", 1)]);
    assert_eq!(
        server.send(&mut b, &["SUBSCRIBE", "foo", "bar"], 0),
        vec![notice("subscribe", "foo", 1), notice("subscribe", "bar", 2)]
    );
    assert_eq!(a.phase(), Phase::Subscribed);
    assert_eq!(server.send(&mut publisher, &["PUBLISH", "foo", "m1"], 0), vec![Frame::Integer(2)]);
    assert_eq!(server.send(&mut publisher, &["PUBLISH", "bar", "m2"], 0), vec![Frame::Integer(1)]);
    assert_eq!(server.send(&mut publisher, &["PUBLISH", "foo", "m3"], 0), vec![Frame::Integer(2)]);
    assert_eq!(a.poll(&mut server.broker), vec![message("foo", "m1"), message("foo", "m3")]);
    assert_eq!(
        b.poll(&mut server.broker),
        vec![message("foo", "m1"), message("foo", "m3"), message("bar", "m2")]
    );
    assert_eq!(a.poll(&mut server.broker), Vec::<Frame>::new());
    assert_eq!(publisher.poll(&mut server.broker), Vec::<Frame>::new());
}

#[test]
fn subscribed_connections_accept_only_subscriptions() {
    let mut server = Server::new();
    let mut s = Session::new();
    server.send(&mut s, &["SUBSCRIBE", "foo"], 0);
    let refusal = error("ERR only SUBSCRIBE and UNSUBSCRIBE are accepted while subscribed");
    assert_eq!(server.send(&mut s, &["GET", "k"], 0), vec![refusal.clone()]);
    assert_eq!(server.send(&mut s, &["SET", "k", "v"], 0), vec![refusal.clone()]);
    assert_eq!(server.send(&mut s, &["PUBLISH", "foo", "m"], 0), vec![refusal]);
    assert_eq!(server.kv.len(), 0);
    assert_eq!(s.poll(&mut server.broker), Vec::<Frame>::new());
    assert_eq!(server.send(&mut s, &["SUBSCRIBE", "foo"], 0), vec![notice("subscribe", "foo", 1)]);
    assert_eq!(server.broker.subscriber_count("foo"), 1);
    assert_eq!(
        server.send(&mut s, &["SUBSCRIBE", "bar"], 0),
        vec![notice("subscribe", "bar", 2)]
    );
    assert_eq!(s.phase(), Phase::Subscribed);
}

#[test]
fn unsubscribe_returns_to_idle() {
    let mut server = Server::new();
    let mut s = Session::new();
    server.send(&mut s, &["SUBSCRIBE", "a", "b", "c"], 0);
    assert_eq!(
        server.send(&mut s, &["UNSUBSCRIBE", "b", "nope"], 0),
        vec![notice("unsubscribe", "b", 2), notice("unsubscribe", "nope", 2)]
    );
    assert_eq!(server.broker.subscriber_count("b"), 0);
    assert_eq!(s.phase(), Phase::Subscribed);
    assert_eq!(
        server.send(&mut s, &["UNSUBSCRIBE"], 0),
        vec![notice("unsubscribe", "a", 1), notice("unsubscribe", "c", 0)]
    );
    assert_eq!(s.phase(), Phase::Idle);
    assert_eq!(server.broker.subscriber_count("a"), 0);
    assert_eq!(server.broker.subscriber_count("c"), 0);
    assert_eq!(server.send(&mut s, &["UNSUBSCRIBE"], 0), Vec::<Frame>::new());
    assert_eq!(server.send(&mut s, &["GET", "k"], 0), vec![Frame::Null]);
}

#[test]
fn close_gives_up_every_subscription() {
    let mut server = Server::new();
    let mut s = Session::new();
    let mut other = Session::new();
    server.send(&mut s, &["SUBSCRIBE", "a", "b"], 0);
    server.send(&mut other, &["SUBSCRIBE", "a"], 0);
    s.close(&mut server.broker);
    assert_eq!(s.phase(), Phase::Closed);
    assert!(s.subscriptions().is_empty());
    assert_eq!(server.broker.subscriber_count("a"), 1);
    assert_eq!(server.broker.subscriber_count("b"), 0);
    assert_eq!(server.send(&mut s, &["GET", "k"], 0), Vec::<Frame>::new());
    assert_eq!(server.send(&mut s, &["SUBSCRIBE", "a"], 0), Vec::<Frame>::new());
    assert_eq!(server.broker.subscriber_count("a"), 1);
}

#[test]
fn connection_gives_out_frames_as_bytes_arrive() {
    let written = b"*2\r\n$3\r\nGET\r\n$1\r\na\r\n+OK\r\n";
    let mut conn = Connection::new();
    let mut frames = Vec::new();
    for byte in written.iter() {
        conn.feed(&[*byte]);
        loop {
            match conn.advance(false) {
                Ok(Progress::Frame(f)) => frames.push(f),
                Ok(Progress::ReadMore) => break,
                other => panic!("{:?}", other),
            }
        }
    }
    assert_eq!(frames, vec![request(&["GET", "a"]), Frame::Simple("OK".to_string())]);
    assert_eq!(conn.buffered(), 0);
    assert!(matches!(conn.advance(true), Ok(Progress::End)));
}

#[test]
fn connection_that_ends_within_a_frame_is_corrupt() {
    let mut conn = Connection::new();
    assert!(matches!(conn.advance(false), Ok(Progress::ReadMore)));
    assert!(matches!(conn.advance(true), Ok(Progress::End)));
    conn.feed(b"$5\r\nhel");
    assert!(matches!(conn.advance(false), Ok(Progress::ReadMore)));
    assert_eq!(conn.buffered(), 7);
    assert!(matches!(conn.advance(true), Err(DecodeError::Corrupt)));
}

#[test]
fn connection_reports_corrupt_bytes() {
    let mut conn = Connection::new();
    conn.feed(b"+OK\r\n!\r\n");
    assert!(matches!(conn.advance(false), Ok(Progress::Frame(_))));
    assert!(matches!(conn.advance(false), Err(DecodeError::Corrupt)));
    assert_eq!(conn.buffered(), 3);
}
