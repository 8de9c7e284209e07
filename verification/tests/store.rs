use bytes::Bytes;
use mini_redis::store::Kv;
use std::time::Duration;

fn ms(n: u64) -> Option<Duration> {
    Some(Duration::from_millis(n))
}

#[test]
fn a_new_store_is_empty() {
    let kv = Kv::new();
    assert_eq!(kv.len(), 0);
    assert_eq!(kv.get("k", 0), None);
    assert_eq!(kv.next_deadline(), None);
}

#[test]
fn value_with_ttl_expires() {
    let mut kv = Kv::new();
    kv.set("k".to_string(), Bytes::from("v"), ms(10), 1000);
    assert_eq!(kv.get("k", 1000), Some(Bytes::from("v")));
    assert_eq!(kv.get("k", 1009), Some(Bytes::from("v")));
    assert_eq!(kv.get("k", 1010), None);
    assert_eq!(kv.get("k", 1020), None);
    // no sweep has run: the entry is still stored
    assert_eq!(kv.len(), 1);
}

#[test]
fn value_with_ttl_expires_after_a_sweep_too() {
    let mut kv = Kv::new();
    kv.set("k".to_string(), Bytes::from("v"), ms(10), 1000);
    assert_eq!(kv.purge_expired(1005), Some(1010));
    assert_eq!(kv.get("k", 1005), Some(Bytes::from("v")));
    assert_eq!(kv.purge_expired(1020), None);
    assert_eq!(kv.get("k", 1020), None);
    assert_eq!(kv.len(), 0);
}

#[test]
fn value_without_ttl_stays() {
    let mut kv = Kv::new();
    kv.set("k".to_string(), Bytes::from("v"), None, 1000);
    assert_eq!(kv.get("k", 1000), Some(Bytes::from("v")));
    assert_eq!(kv.get("k", u64::MAX), Some(Bytes::from("v")));
    assert_eq!(kv.purge_expired(u64::MAX), None);
    assert_eq!(kv.get("k", u64::MAX), Some(Bytes::from("v")));
    assert_eq!(kv.len(), 1);
}

#[test]
fn set_overwrites_value_and_expiration() {
    let mut kv = Kv::new();
    kv.set("k".to_string(), Bytes::from("old"), ms(10), 0);
    kv.set("k".to_string(), Bytes::from("new"), None, 5);
    assert_eq!(kv.len(), 1);
    assert_eq!(kv.next_deadline(), None);
    assert_eq!(kv.get("k", 1_000_000), Some(Bytes::from("new")));
    kv.set("k".to_string(), Bytes::from("newer"), ms(7), 100);
    assert_eq!(kv.next_deadline(), Some(107));
    assert_eq!(kv.get("k", 106), Some(Bytes::from("newer")));
    assert_eq!(kv.get("k", 107), None);
}

#[test]
fn sweep_removes_what_is_due_and_reports_the_next() {
    let mut kv = Kv::new();
    kv.set("a".to_string(), Bytes::from("1"), ms(30), 0);
    kv.set("b".to_string(), Bytes::from("2"), ms(10), 0);
    kv.set("c".to_string(), Bytes::from("3"), ms(20), 0);
    kv.set("d".to_string(), Bytes::from("4"), None, 0);
    kv.set("e".to_string(), Bytes::from("5"), ms(20), 0);
    assert_eq!(kv.next_deadline(), Some(10));
    assert_eq!(kv.purge_expired(9), Some(10));
    assert_eq!(kv.len(), 5);
    assert_eq!(kv.purge_expired(20), Some(30));
    assert_eq!(kv.len(), 2);
    assert_eq!(kv.get("a", 20), Some(Bytes::from("1")));
    assert_eq!(kv.get("d", 20), Some(Bytes::from("4")));
    assert_eq!(kv.get("b", 20), None);
    assert_eq!(kv.purge_expired(30), None);
    assert_eq!(kv.len(), 1);
}

#[test]
fn set_tells_when_the_sweeper_must_wake() {
    let mut kv = Kv::new();
    assert!(!kv.set("a".to_string(), Bytes::from("1"), None, 0));
    assert!(kv.set("b".to_string(), Bytes::from("2"), ms(50), 0));
    assert!(!kv.set("c".to_string(), Bytes::from("3"), ms(60), 0));
    assert!(!kv.set("d".to_string(), Bytes::from("4"), ms(50), 0));
    assert!(kv.set("e".to_string(), Bytes::from("5"), ms(40), 0));
    assert!(!kv.set("e".to_string(), Bytes::from("6"), ms(40), 0));
}

#[test]
fn deadline_is_capped_at_the_end_of_time() {
    let mut kv = Kv::new();
    kv.set("k".to_string(), Bytes::from("v"), ms(10), u64::MAX - 3);
    assert_eq!(kv.next_deadline(), Some(u64::MAX));
    assert_eq!(kv.get("k", u64::MAX - 1), Some(Bytes::from("v")));
    assert_eq!(kv.get("k", u64::MAX), None);
    kv.set("j".to_string(), Bytes::from("v"), Some(Duration::MAX), 5);
    assert_eq!(kv.get("j", u64::MAX - 1), Some(Bytes::from("v")));
}

#[test]
fn zero_ttl_is_gone_at_once() {
    let mut kv = Kv::new();
    kv.set("k".to_string(), Bytes::from("v"), ms(0), 7);
    assert_eq!(kv.get("k", 7), None);
}

#[test]
fn keys_do_not_disturb_each_other() {
    let mut kv = Kv::new();
    kv.set("a".to_string(), Bytes::from("1"), ms(10), 0);
    kv.set("b".to_string(), Bytes::from("2"), None, 0);
    kv.set("a".to_string(), Bytes::from("3"), ms(5), 0);
    assert_eq!(kv.get("b", 100), Some(Bytes::from("2")));
    assert_eq!(kv.get("a", 4), Some(Bytes::from("3")));
    assert_eq!(kv.get("a", 5), None);
    assert_eq!(kv.get("", 0), None);
}
