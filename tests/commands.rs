use redis_lite::command::{
    advance_offset, answers_master, command_from_tokens, execute, parse_command, Command,
};
use redis_lite::config::Config;
use redis_lite::connection::{Connection, ConnectionStep};
use redis_lite::rdb::empty_rdb;
use redis_lite::resp::{encoding_array, RespError};
use redis_lite::store::Database;

fn run(db: &mut Database, parts: &[&str], now: u64) -> Vec<u8> {
    let wire = encoding_array(parts);
    let (cmd, n) = parse_command(&wire).unwrap();
    assert_eq!(n, wire.len());
    execute(db, &cmd, now, 0).reply.to_vec()
}

fn tokens(parts: &[&str]) -> Vec<String> {
    parts.iter().map(|s| s.to_string()).collect()
}

#[test]
fn set_then_get_replies() {
    let mut db = Database::new(Config::new());
    assert_eq!(run(&mut db, &["SET", "foo", "bar"], 0), b"+OK\r\n");
    assert_eq!(run(&mut db, &["GET", "foo"], 0), b"$3\r\nbar\r\n");
}

#[test]
fn set_with_px_expires() {
    let mut db = Database::new(Config::new());
    assert_eq!(run(&mut db, &["SET", "foo", "bar", "PX", "50"], 1_000), b"+OK\r\n");
    assert_eq!(run(&mut db, &["GET", "foo"], 1_000), b"$3\r\nbar\r\n");
    assert_eq!(run(&mut db, &["GET", "foo"], 1_100), b"$-1\r\n");
}

#[test]
fn keys_reply_is_sorted() {
    let mut db = Database::new(Config::new());
    run(&mut db, &["SET", "b", "2"], 0);
    run(&mut db, &["SET", "a", "1"], 0);
    assert_eq!(run(&mut db, &["KEYS", "*"], 0), b"*2\r\n$1\r\na\r\n$1\r\nb\r\n");
}

#[test]
fn ping_echo_unknown() {
    let mut db = Database::new(Config::new());
    assert_eq!(run(&mut db, &["ping"], 0), b"+PONG\r\n");
    assert_eq!(run(&mut db, &["EcHo", "hey"], 0), b"$3\r\nhey\r\n");
    assert_eq!(run(&mut db, &["ECHO"], 0), b"-ERR wrong arguments\r\n");
    assert_eq!(run(&mut db, &["GET", "a", "b"], 0), b"-ERR wrong arguments\r\n");
    assert_eq!(run(&mut db, &["FLUSHALL"], 0), b"-ERR unknown command\r\n");
    assert_eq!(run(&mut db, &[], 0), b"-ERR unknown command\r\n");
}

#[test]
fn command_shapes() {
    assert!(matches!(command_from_tokens(&tokens(&["SET", "k", "v", "px", "7"])),
        Command::SetKey(k, v, Some(7)) if k == "k" && v == "v"));
    assert!(matches!(command_from_tokens(&tokens(&["SET", "k", "v", "EX", "7"])), Command::BadArguments));
    assert!(matches!(command_from_tokens(&tokens(&["SET", "k", "v", "PX", "x"])), Command::BadArguments));
    assert!(matches!(command_from_tokens(&tokens(&["SET", "k"])), Command::BadArguments));
    assert!(matches!(command_from_tokens(&tokens(&["INFO"])), Command::Info(None)));
    assert!(matches!(command_from_tokens(&tokens(&["PSYNC", "?", "-1"])), Command::Psync(id, None) if id == "?"));
    assert!(matches!(command_from_tokens(&tokens(&["PSYNC", "abc", "12"])), Command::Psync(_, Some(12))));
    assert!(matches!(command_from_tokens(&tokens(&["WAIT", "2", "500"])), Command::Wait(2, 500)));
    assert!(matches!(command_from_tokens(&tokens(&["WAIT", "2"])), Command::BadArguments));
    assert!(matches!(command_from_tokens(&tokens(&["NOPE"])), Command::Unknown));
    assert!(matches!(command_from_tokens(&tokens(&["CONFIG", "get", "dir"])), Command::ConfigGet(k) if k == "dir"));
    assert!(matches!(command_from_tokens(&tokens(&["REPLCONF", "capa", "psync2"])), Command::Replconf(a) if a.len() == 2));
}

#[test]
fn parse_command_reports_framing_errors() {
    assert_eq!(parse_command(b"*1\r\n$4\r\nPI").unwrap_err(), RespError::Incomplete);
    assert_eq!(parse_command(b"PING\r\n").unwrap_err(), RespError::Malformed);
}

#[test]
fn config_get_replies() {
    let mut c = Config::new();
    c.dir = Some("/data".to_string());
    let mut db = Database::new(c);
    assert_eq!(run(&mut db, &["CONFIG", "GET", "dir"], 0), b"*2\r\n$3\r\ndir\r\n$5\r\n/data\r\n");
    assert_eq!(run(&mut db, &["CONFIG", "GET", "dbfilename"], 0), b"$-1\r\n");
}

#[test]
fn info_replies() {
    let mut db = Database::new(Config::new());
    let master = b"$89\r\nrole:master\r\nmaster_replid:8371b4fb1155b71f4a04d3e1bc3e18c4a990aeeb\r\nmaster_repl_offset:0\r\n";
    assert_eq!(run(&mut db, &["INFO", "replication"], 0), master.to_vec());
    assert_eq!(run(&mut db, &["INFO"], 0), master.to_vec());
    assert_eq!(run(&mut db, &["INFO", "memory"], 0), b"$0\r\n\r\n");
    let mut c = Config::new();
    c.replicaof = Some(("localhost".to_string(), 6379));
    let mut replica = Database::new(c);
    let reply = run(&mut replica, &["INFO", "replication"], 0);
    assert!(reply.starts_with(b"$88\r\nrole:slave\r\n"));
}

#[test]
fn replconf_replies() {
    let mut db = Database::new(Config::new());
    let port = command_from_tokens(&tokens(&["REPLCONF", "listening-port", "6380"]));
    let out = execute(&mut db, &port, 0, 0);
    assert_eq!(&out.reply[..], b"+OK\r\n");
    assert!(out.register_replica);
    assert!(!answers_master(&port));
    let ack = command_from_tokens(&tokens(&["REPLCONF", "GETACK", "*"]));
    let out = execute(&mut db, &ack, 0, 154);
    assert_eq!(&out.reply[..], b"*3\r\n$8\r\nREPLCONF\r\n$3\r\nACK\r\n$3\r\n154\r\n");
    assert!(!out.register_replica);
    assert!(answers_master(&ack));
    assert_eq!(advance_offset(154, 37), 191);
    assert_eq!(advance_offset(u64::MAX - 1, 5), u64::MAX);
}

#[test]
fn psync_sends_full_resync() {
    let mut db = Database::new(Config::new());
    let reply = run(&mut db, &["PSYNC", "?", "-1"], 0);
    let head = b"+FULLRESYNC 8371b4fb1155b71f4a04d3e1bc3e18c4a990aeeb 0\r\n";
    assert!(reply.starts_with(head));
    let rest = &reply[head.len()..];
    let mut expected = b"$88\r\n".to_vec();
    expected.extend_from_slice(&empty_rdb());
    assert_eq!(rest, &expected[..]);
}

#[test]
fn wait_without_replicas() {
    let mut db = Database::new(Config::new());
    assert_eq!(run(&mut db, &["WAIT", "0", "100"], 0), b":0\r\n");
    assert_eq!(run(&mut db, &["WAIT", "1", "100"], 0), b":0\r\n");
}

#[test]
fn set_is_propagated_in_canonical_form() {
    let mut db = Database::new(Config::new());
    let cmd = command_from_tokens(&tokens(&["set", "k", "v", "px", "0100"]));
    let out = execute(&mut db, &cmd, 5, 0);
    assert_eq!(
        &out.propagated.unwrap()[..],
        &b"*5\r\n$3\r\nSET\r\n$1\r\nk\r\n$1\r\nv\r\n$2\r\nPX\r\n$3\r\n100\r\n"[..]
    );
    let get = command_from_tokens(&tokens(&["GET", "k"]));
    assert!(execute(&mut db, &get, 0, 0).propagated.is_none());
}

#[test]
fn connection_handles_requests_in_order() {
    let mut db = Database::new(Config::new());
    let mut conn = Connection::new(false, b"*1\r\n$4\r\nPING\r\n*2\r\n$3\r\nGET".to_vec());
    match conn.step(&mut db, 0) {
        ConnectionStep::Handled { reply, register_replica } => {
            assert_eq!(&reply.unwrap()[..], b"+PONG\r\n");
            assert!(!register_replica);
        }
        ConnectionStep::NeedInput => panic!("a full request was buffered"),
    }
    assert!(matches!(conn.step(&mut db, 0), ConnectionStep::NeedInput));
    assert!(conn.receive(b"\r\n$1\r\nx\r\n"));
    match conn.step(&mut db, 0) {
        ConnectionStep::Handled { reply, .. } => assert_eq!(&reply.unwrap()[..], b"$-1\r\n"),
        ConnectionStep::NeedInput => panic!("a full request was buffered"),
    }
    assert!(!conn.receive(b""));
}

#[test]
fn connection_rejects_garbage() {
    let mut db = Database::new(Config::new());
    let mut conn = Connection::new(false, b"hello\r\n".to_vec());
    match conn.step(&mut db, 0) {
        ConnectionStep::Handled { reply, register_replica } => {
            assert_eq!(&reply.unwrap()[..], b"-ERR protocol error\r\n");
            assert!(!register_replica);
        }
        ConnectionStep::NeedInput => panic!("garbage must be rejected"),
    }
    assert!(matches!(conn.step(&mut db, 0), ConnectionStep::NeedInput));
}

#[test]
fn master_link_stays_silent_but_acknowledges() {
    let mut db = Database::new(Config::new());
    let set = encoding_array(&["SET", "k", "v"]).to_vec();
    let ack = encoding_array(&["REPLCONF", "GETACK", "*"]).to_vec();
    let mut inbox = set.clone();
    inbox.extend_from_slice(&ack);
    let mut conn = Connection::new(true, inbox);
    match conn.step(&mut db, 0) {
        ConnectionStep::Handled { reply, .. } => assert!(reply.is_none()),
        ConnectionStep::NeedInput => panic!("a full request was buffered"),
    }
    assert_eq!(db.get("k", 0), Some("v".to_string()));
    match conn.step(&mut db, 0) {
        ConnectionStep::Handled { reply, .. } => assert_eq!(
            &reply.unwrap()[..],
            format!("*3\r\n$8\r\nREPLCONF\r\n$3\r\nACK\r\n$2\r\n{}\r\n", set.len()).as_bytes()
        ),
        ConnectionStep::NeedInput => panic!("a full request was buffered"),
    }
}

#[test]
fn replica_registration_is_requested() {
    let mut db = Database::new(Config::new());
    let req = encoding_array(&["REPLCONF", "listening-port", "6380"]).to_vec();
    let mut conn = Connection::new(false, req);
    match conn.step(&mut db, 0) {
        ConnectionStep::Handled { reply, register_replica } => {
            assert_eq!(&reply.unwrap()[..], b"+OK\r\n");
            assert!(register_replica);
        }
        ConnectionStep::NeedInput => panic!("a full request was buffered"),
    }
}
