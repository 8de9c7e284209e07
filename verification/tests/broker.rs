use bytes::Bytes;
use mini_redis::broker::Broker;

#[test]
fn publish_without_subscribers() {
    let mut b = Broker::new(4);
    assert_eq!(b.publish("foo", Bytes::from("m")), 0);
    assert_eq!(b.subscriber_count("foo"), 0);
    let id = b.subscribe("bar".to_string()).unwrap();
    assert_eq!(b.publish("foo", Bytes::from("m")), 0);
    assert_eq!(b.receive("bar", id), None);
}

#[test]
fn subscriber_receives_in_publish_order() {
    let mut b = Broker::new(8);
    assert_eq!(b.publish("foo", Bytes::from("early")), 0);
    let id = b.subscribe("foo".to_string()).unwrap();
    assert_eq!(b.publish("foo", Bytes::from("one")), 1);
    assert_eq!(b.publish("bar", Bytes::from("elsewhere")), 0);
    assert_eq!(b.publish("foo", Bytes::from("two")), 1);
    assert_eq!(b.publish("foo", Bytes::from("three")), 1);
    assert_eq!(b.receive("foo", id), Some(Bytes::from("one")));
    assert_eq!(b.receive("foo", id), Some(Bytes::from("two")));
    assert_eq!(b.receive("foo", id), Some(Bytes::from("three")));
    assert_eq!(b.receive("foo", id), None);
}

#[test]
fn every_subscriber_of_the_channel_receives() {
    let mut b = Broker::new(8);
    let x = b.subscribe("foo".to_string()).unwrap();
    let y = b.subscribe("foo".to_string()).unwrap();
    let z = b.subscribe("bar".to_string()).unwrap();
    assert_ne!(x, y);
    assert_ne!(y, z);
    assert_eq!(b.subscriber_count("foo"), 2);
    assert_eq!(b.publish("foo", Bytes::from("m")), 2);
    assert_eq!(b.drain("foo", x), vec![Bytes::from("m")]);
    assert_eq!(b.drain("foo", y), vec![Bytes::from("m")]);
    assert_eq!(b.drain("bar", z), Vec::<Bytes>::new());
    assert_eq!(b.drain("foo", x), Vec::<Bytes>::new());
}

#[test]
fn unsubscribe_lowers_the_count() {
    let mut b = Broker::new(8);
    let x = b.subscribe("foo".to_string()).unwrap();
    let y = b.subscribe("foo".to_string()).unwrap();
    assert_eq!(b.publish("foo", Bytes::from("a")), 2);
    assert!(b.unsubscribe("foo", x));
    assert_eq!(b.publish("foo", Bytes::from("b")), 1);
    assert!(!b.unsubscribe("foo", x));
    assert!(!b.unsubscribe("bar", y));
    assert_eq!(b.publish("foo", Bytes::from("c")), 1);
    assert!(b.unsubscribe("foo", y));
    assert_eq!(b.publish("foo", Bytes::from("d")), 0);
    assert_eq!(b.receive("foo", x), None);
    assert_eq!(b.receive("foo", y), None);
}

#[test]
fn a_full_mailbox_misses_the_message() {
    let mut b = Broker::new(2);
    let slow = b.subscribe("foo".to_string()).unwrap();
    let quick = b.subscribe("foo".to_string()).unwrap();
    assert_eq!(b.publish("foo", Bytes::from("1")), 2);
    assert_eq!(b.receive("foo", quick), Some(Bytes::from("1")));
    assert_eq!(b.publish("foo", Bytes::from("2")), 2);
    assert_eq!(b.receive("foo", quick), Some(Bytes::from("2")));
    // the slow one is full now
    assert_eq!(b.publish("foo", Bytes::from("3")), 2);
    assert_eq!(b.receive("foo", quick), Some(Bytes::from("3")));
    assert_eq!(b.drain("foo", slow), vec![Bytes::from("1"), Bytes::from("2")]);
    assert_eq!(b.publish("foo", Bytes::from("4")), 2);
    assert_eq!(b.drain("foo", slow), vec![Bytes::from("4")]);
}

#[test]
fn a_broker_without_room_delivers_nothing() {
    let mut b = Broker::new(0);
    let id = b.subscribe("foo".to_string()).unwrap();
    assert_eq!(b.publish("foo", Bytes::from("m")), 1);
    assert_eq!(b.receive("foo", id), None);
}

#[test]
fn a_handle_counts_only_with_its_channel() {
    let mut b = Broker::new(2);
    let id = b.subscribe("foo".to_string()).unwrap();
    b.publish("foo", Bytes::from("m"));
    assert_eq!(b.receive("bar", id), None);
    assert_eq!(b.drain("bar", id), Vec::<Bytes>::new());
    assert_eq!(b.receive("foo", id + 1), None);
    assert_eq!(b.receive("foo", id), Some(Bytes::from("m")));
}
