use redis_lite::config::Config;
use redis_lite::store::Database;

#[test]
fn set_then_get_returns_value() {
    let mut db = Database::new(Config::new());
    db.set("foo", "bar");
    assert_eq!(db.get("foo", 0), Some("bar".to_string()));
    assert_eq!(db.get("foo", u64::MAX), Some("bar".to_string()));
    assert_eq!(db.get("missing", 0), None);
}

#[test]
fn expiry_hides_value() {
    let mut db = Database::new(Config::new());
    db.set_with_expire("k", "v", 100, 1_000);
    assert_eq!(db.get("k", 1_000), Some("v".to_string()));
    assert_eq!(db.get("k", 1_099), Some("v".to_string()));
    assert_eq!(db.get("k", 1_100), None);
    assert_eq!(db.get("k", 1_000), None);
}

#[test]
fn expired_key_leaves_listing_without_get() {
    let mut db = Database::new(Config::new());
    db.set_with_expire("t", "1", 50, 0);
    db.set("p", "2");
    assert_eq!(db.keys("*", 10), vec!["p".to_string(), "t".to_string()]);
    assert_eq!(db.keys("*", 50), vec!["p".to_string()]);
    assert_eq!(db.get("t", 0), None);
}

#[test]
fn expiry_saturates() {
    let mut db = Database::new(Config::new());
    db.set_with_expire("k", "v", u64::MAX, 10);
    assert_eq!(db.get("k", u64::MAX - 1), Some("v".to_string()));
    assert_eq!(db.get("k", u64::MAX), None);
}

#[test]
fn reset_overwrites_and_clears_expiry() {
    let mut db = Database::new(Config::new());
    db.set_with_expire("k", "old", 10, 0);
    db.set("k", "new");
    assert_eq!(db.get("k", 1_000_000), Some("new".to_string()));
    db.set_with_expire("k", "newer", 5, 100);
    assert_eq!(db.get("k", 104), Some("newer".to_string()));
    assert_eq!(db.get("k", 105), None);
    assert_eq!(db.keys("*", 105), Vec::<String>::new());
}

#[test]
fn keys_come_sorted() {
    let mut db = Database::new(Config::new());
    for k in ["pear", "apple", "b", "Zebra", "apples", "", "é"] {
        db.set(k, "x");
    }
    assert_eq!(
        db.keys("*", 0),
        vec!["", "Zebra", "apple", "apples", "b", "pear", "é"]
            .into_iter()
            .map(String::from)
            .collect::<Vec<_>>()
    );
    assert!(Database::new(Config::new()).keys("*", 0).is_empty());
}

#[test]
fn config_lookups() {
    let mut c = Config::new();
    assert_eq!(c.port, 6379);
    assert_eq!(c.get_file_path(), None);
    assert_eq!(c.get("port"), Some("6379".to_string()));
    assert_eq!(c.get("replicaof"), None);
    c.dir = Some("/tmp/data".to_string());
    assert_eq!(c.get_file_path(), None);
    c.dbfilename = Some("dump.rdb".to_string());
    c.replicaof = Some(("localhost".to_string(), 6380));
    c.port = 0;
    assert_eq!(c.get_file_path(), Some("/tmp/data/dump.rdb".to_string()));
    assert_eq!(c.get_info("dir"), Some("/tmp/data".to_string()));
    assert_eq!(c.get_info("dbfilename"), Some("dump.rdb".to_string()));
    assert_eq!(c.get_info("port"), None);
    assert_eq!(c.get_info("DIR"), None);
    assert_eq!(c.get("port"), Some("0".to_string()));
    assert_eq!(c.get("replicaof"), Some("localhost:6380".to_string()));
    let db = Database::new(c);
    assert_eq!(db.config_get("dbfilename"), Some("dump.rdb".to_string()));
    assert_eq!(db.config_get("other"), None);
    assert_eq!(db.config().port, 0);
}
