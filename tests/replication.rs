use bytes::Bytes;
use redis_lite::command::{command_from_tokens, execute, parse_command};
use redis_lite::rdb::empty_rdb;
use redis_lite::config::Config;
use redis_lite::handshake::{handshake_request, handshake_step, HandshakeError, HandshakeStep};
use redis_lite::replication::Replication;
use redis_lite::resp::encoding_array;
use redis_lite::store::Database;
use tokio::sync::mpsc::unbounded_channel;

#[test]
fn propagate_counts_each_replica_then_resets() {
    let mut db = Database::new(Config::new());
    let (tx1, mut rx1) = unbounded_channel::<Bytes>();
    let (tx2, mut rx2) = unbounded_channel::<Bytes>();
    db.add_replication(tx1);
    db.add_replication(tx2);
    assert_eq!(db.replication_count(), 2);
    let cmd = encoding_array(&["SET", "foo", "bar"]);
    assert_eq!(db.spread(&cmd), 2);
    assert_eq!(db.pending_count(), 0);
    assert_eq!(rx1.try_recv().unwrap(), cmd);
    assert_eq!(rx2.try_recv().unwrap(), cmd);
    assert!(!db.wait(1, 0));
    assert!(db.wait(0, 0));
}

#[test]
fn closed_replica_is_not_counted() {
    let mut r = Replication::new();
    let (tx1, rx1) = unbounded_channel::<Bytes>();
    let (tx2, mut rx2) = unbounded_channel::<Bytes>();
    r.register(tx1);
    r.register(tx2);
    drop(rx1);
    assert_eq!(r.propagate(&Bytes::from_static(b"x")), 1);
    assert_eq!(r.pending_count(), 0);
    assert_eq!(r.count(), 2);
    assert_eq!(&rx2.try_recv().unwrap()[..], b"x");
}

#[test]
fn wait_resets_only_when_satisfied() {
    let mut r = Replication::new();
    r.note_delivery(true);
    r.note_delivery(true);
    r.note_delivery(false);
    assert_eq!(r.pending_count(), 2);
    assert!(!r.wait(3, 10));
    assert_eq!(r.pending_count(), 2);
    assert!(r.wait(2, 10));
    assert_eq!(r.pending_count(), 0);
}

#[test]
fn write_command_reaches_replicas() {
    let mut db = Database::new(Config::new());
    let (tx, mut rx) = unbounded_channel::<Bytes>();
    db.add_replication(tx);
    let set = command_from_tokens(&vec!["SET".to_string(), "a".to_string(), "1".to_string()]);
    let out = execute(&mut db, &set, 0, 0);
    assert_eq!(&out.reply[..], b"+OK\r\n");
    assert_eq!(&rx.try_recv().unwrap()[..], b"*3\r\n$3\r\nSET\r\n$1\r\na\r\n$1\r\n1\r\n");
}

#[test]
fn handshake_against_empty_master() {
    let mut master = Database::new(Config::new());
    let mut step = HandshakeStep::Ping;
    let mut inbox: Vec<u8> = Vec::new();
    let mut sent = Vec::new();
    let mut snapshot = None;
    while step != HandshakeStep::Done {
        if let Some(request) = handshake_request(step, 6380) {
            sent.push(request.to_vec());
            let (cmd, _) = parse_command(&request).unwrap();
            inbox.extend_from_slice(&execute(&mut master, &cmd, 0, 0).reply);
        }
        let progress = handshake_step(step, &inbox).unwrap();
        inbox.drain(..progress.consumed);
        step = progress.next;
        if progress.snapshot.is_some() {
            snapshot = progress.snapshot;
        }
    }
    assert!(inbox.is_empty());
    assert_eq!(sent.len(), 4);
    assert_eq!(sent[0], b"*1\r\n$4\r\nPING\r\n");
    assert_eq!(sent[1], b"*3\r\n$8\r\nREPLCONF\r\n$14\r\nlistening-port\r\n$4\r\n6380\r\n");
    assert_eq!(sent[2], b"*3\r\n$8\r\nREPLCONF\r\n$4\r\ncapa\r\n$6\r\npsync2\r\n");
    assert_eq!(sent[3], b"*3\r\n$5\r\nPSYNC\r\n$1\r\n?\r\n$2\r\n-1\r\n");
    assert_eq!(snapshot.unwrap(), empty_rdb());
}

#[test]
fn handshake_rejects_unexpected_replies() {
    assert_eq!(handshake_step(HandshakeStep::Ping, b"+OK\r\n").err(), Some(HandshakeError::Unexpected));
    assert_eq!(handshake_step(HandshakeStep::Ping, b"+PON").err(), Some(HandshakeError::Incomplete));
    assert_eq!(handshake_step(HandshakeStep::Capa, b"-ERR no\r\n").err(), Some(HandshakeError::Unexpected));
    assert_eq!(handshake_step(HandshakeStep::Psync, b"+CONTINUE\r\n").err(), Some(HandshakeError::Unexpected));
    assert_eq!(handshake_step(HandshakeStep::Done, b"+OK\r\n").err(), Some(HandshakeError::Unexpected));
    let p = handshake_step(HandshakeStep::Psync, b"+FULLRESYNC abc 0\r\n$0\r\n").unwrap();
    assert_eq!(p.next, HandshakeStep::Snapshot);
    assert_eq!(p.consumed, 19);
    assert!(handshake_request(HandshakeStep::Snapshot, 1).is_none());
}
