use redis_lite::config::Config;
use redis_lite::rdb::{empty_rdb, length_encode, serialize, serialize_kv};
use redis_lite::store::Database;

fn record(key: &str, value: &str, expiry: Option<u64>) -> Vec<u8> {
    let mut out = Vec::new();
    if let Some(t) = expiry {
        out.push(0xfc);
        out.extend_from_slice(&t.to_le_bytes());
    }
    out.push(0x00);
    out.push(key.len() as u8);
    out.extend_from_slice(key.as_bytes());
    out.push(value.len() as u8);
    out.extend_from_slice(value.as_bytes());
    out
}

fn snapshot(records: &[Vec<u8>], expiring: u8) -> Vec<u8> {
    let mut out = b"REDIS0011\xfa\x09redis-ver\x057.2.0".to_vec();
    out.push(0xfe);
    out.push(0x00);
    out.push(0xfb);
    out.push(records.len() as u8);
    out.push(expiring);
    for r in records {
        out.extend_from_slice(r);
    }
    out.push(0xff);
    out.extend_from_slice(&[0u8; 8]);
    out
}

#[test]
fn length_encoding_forms() {
    assert_eq!(length_encode(&[0x0a]), Some((10, 1)));
    assert_eq!(length_encode(&[0x3f, 0x99]), Some((63, 1)));
    assert_eq!(length_encode(&[0x41, 0x02]), Some((258, 2)));
    assert_eq!(length_encode(&[0x80, 0x00, 0x01, 0x00, 0x02]), Some((65538, 5)));
    assert_eq!(length_encode(&[0xc0, 0x01]), None);
    assert_eq!(length_encode(&[0x41]), None);
    assert_eq!(length_encode(&[0x80, 0, 0]), None);
    assert_eq!(length_encode(&[]), None);
}

#[test]
fn record_decodes() {
    let plain = record("foo", "bar", None);
    let (k, v, n) = serialize_kv(&plain).unwrap();
    assert_eq!(k, "foo");
    assert_eq!(v.value, "bar");
    assert_eq!(v.expires_at, None);
    assert_eq!(n, plain.len());

    let timed = record("k", "v", Some(1_713_824_559_637));
    let (k, v, n) = serialize_kv(&timed).unwrap();
    assert_eq!(k, "k");
    assert_eq!(v.value, "v");
    assert_eq!(v.expires_at, Some(1_713_824_559_637));
    assert_eq!(n, timed.len());
}

#[test]
fn record_errors() {
    let plain = record("foo", "bar", None);
    assert!(serialize_kv(&plain[..plain.len() - 1]).is_none());
    let mut bad = record("foo", "bar", None);
    bad[2] = 0xff;
    assert!(serialize_kv(&bad).is_none());
    let mut reserved = record("foo", "bar", None);
    reserved[1] = 0xc3;
    assert!(serialize_kv(&reserved).is_none());
}

#[test]
fn expired_record_is_dropped() {
    let now = 1_700_000_000_000;
    let buf = snapshot(&[record("live", "1", None), record("gone", "2", Some(now - 1))], 1);
    let entries = serialize(&buf, now).unwrap();
    assert_eq!(entries.len(), 1);
    assert_eq!(entries[0].0, "live");
    assert_eq!(entries[0].1.value, "1");

    let mut db = Database::from_snapshot(Config::new(), &buf, now);
    assert_eq!(db.get("live", now), Some("1".to_string()));
    assert_eq!(db.get("gone", now), None);
    assert_eq!(db.keys("*", now), vec!["live".to_string()]);
}

#[test]
fn future_expiry_is_kept() {
    let now = 1_000;
    let buf = snapshot(&[record("a", "x", Some(5_000)), record("b", "y", None)], 1);
    let entries = serialize(&buf, now).unwrap();
    assert_eq!(entries.len(), 2);
    assert_eq!(entries[0].1.expires_at, Some(5_000));
    let mut db = Database::from_snapshot(Config::new(), &buf, now);
    assert_eq!(db.get("a", 4_999), Some("x".to_string()));
    assert_eq!(db.get("a", 5_000), None);
}

#[test]
fn malformed_snapshot_fails() {
    let now = 10;
    let buf = snapshot(&[record("a", "x", None)], 0);
    assert!(serialize(&buf[..buf.len() - 12], now).is_none());
    assert!(serialize(b"REDIS0011", now).is_none());
    let mut db = Database::from_snapshot(Config::new(), b"REDIS0011", now);
    assert!(db.keys("*", now).is_empty());
}

#[test]
fn empty_snapshot_decodes_to_nothing() {
    let entries = serialize(&empty_rdb(), 1_700_000_000_000).unwrap();
    assert!(entries.is_empty());
    let mut db = Database::from_snapshot(Config::new(), &empty_rdb(), 0);
    assert!(db.keys("*", 0).is_empty());
    assert!(serialize(b"REDIS0011\xfa\x03abc\xff", 0).unwrap().is_empty());
}

#[test]
fn empty_snapshot_bytes() {
    let rdb = empty_rdb();
    assert_eq!(rdb.len(), 88);
    assert_eq!(&rdb[..9], b"REDIS0011");
    assert_eq!(rdb[rdb.len() - 9], 0xff);
}
