use redis_lite::resp::{
    bulk_string, encoding_array, encoding_bulk_string, encoding_error, encoding_integer,
    encoding_simple_string, encoding_string_array, null_bulk_string, parse_array,
    parse_bulk_string, parse_lenght, receive_rdb_file, parse_simple_string, rdb_file, RespError,
};

#[test]
fn length_line_reads_digits() {
    assert_eq!(parse_lenght(b"42\r\n"), Ok((42, 4)));
    assert_eq!(parse_lenght(b"0\r\nrest"), Ok((0, 3)));
    assert_eq!(parse_lenght(b"\r\n"), Ok((0, 2)));
}

#[test]
fn length_line_waits_for_terminator() {
    assert_eq!(parse_lenght(b""), Err(RespError::Incomplete));
    assert_eq!(parse_lenght(b"12"), Err(RespError::Incomplete));
    assert_eq!(parse_lenght(b"12\r"), Err(RespError::Incomplete));
}

#[test]
fn length_line_rejects_bad_bytes() {
    assert_eq!(parse_lenght(b"4x\r\n"), Err(RespError::Malformed));
    assert_eq!(parse_lenght(b"-1\r\n"), Err(RespError::Malformed));
    assert_eq!(parse_lenght(b"4\rx"), Err(RespError::Malformed));
    assert_eq!(parse_lenght(b"99999999999999999999999\r\n"), Err(RespError::Malformed));
}

#[test]
fn simple_string_decodes() {
    let (s, n) = parse_simple_string(b"+OK\r\n+PONG\r\n").unwrap();
    assert_eq!(s, "OK");
    assert_eq!(n, 5);
    assert_eq!(parse_simple_string(b"-ERR x\r\n").unwrap_err(), RespError::Malformed);
    assert_eq!(parse_simple_string(b"+PON").unwrap_err(), RespError::Incomplete);
    assert_eq!(parse_simple_string(b"+OK\rx").unwrap_err(), RespError::Malformed);
}

#[test]
fn bulk_string_decodes() {
    let (s, n) = parse_bulk_string(b"$3\r\nbar\r\n").unwrap();
    assert_eq!(s, "bar");
    assert_eq!(n, 9);
    let (s, n) = parse_bulk_string(b"$0\r\n\r\n").unwrap();
    assert_eq!(s, "");
    assert_eq!(n, 6);
}

#[test]
fn bulk_string_errors() {
    assert_eq!(parse_bulk_string(b"$3\r\nba").unwrap_err(), RespError::Incomplete);
    assert_eq!(parse_bulk_string(b"$3\r\nbarXY").unwrap_err(), RespError::Malformed);
    assert_eq!(parse_bulk_string(b"+3\r\nbar\r\n").unwrap_err(), RespError::Malformed);
    assert_eq!(parse_bulk_string(b"$2\r\n\xff\xfe\r\n").unwrap_err(), RespError::Malformed);
}

#[test]
fn array_decodes_request() {
    let (items, n) = parse_array(b"*2\r\n$4\r\nECHO\r\n$3\r\nhey\r\n").unwrap();
    assert_eq!(items, vec!["ECHO".to_string(), "hey".to_string()]);
    assert_eq!(n, 23);
    let (items, n) = parse_array(b"*0\r\n").unwrap();
    assert!(items.is_empty());
    assert_eq!(n, 4);
}

#[test]
fn array_errors() {
    assert_eq!(parse_array(b"*2\r\n$4\r\nECHO\r\n").unwrap_err(), RespError::Incomplete);
    assert_eq!(parse_array(b"$2\r\n").unwrap_err(), RespError::Malformed);
    assert_eq!(parse_array(b"*1\r\n+OK\r\n").unwrap_err(), RespError::Malformed);
}

#[test]
fn array_round_trip() {
    let cases: Vec<Vec<&str>> = vec![
        vec![],
        vec!["PING"],
        vec!["SET", "foo", "bar", "PX", "100"],
        vec!["", "ünïcödé", "a\r\nb"],
    ];
    for case in cases {
        let wire = encoding_array(&case);
        let mut buf = wire.to_vec();
        buf.extend_from_slice(b"*1\r\n");
        let (items, n) = parse_array(&buf).unwrap();
        assert_eq!(items, case.iter().map(|s| s.to_string()).collect::<Vec<_>>());
        assert_eq!(n, wire.len());
    }
}

#[test]
fn encoders_produce_frames() {
    assert_eq!(&encoding_simple_string("OK")[..], &b"+OK\r\n"[..]);
    assert_eq!(&encoding_bulk_string("bar")[..], &b"$3\r\nbar\r\n"[..]);
    assert_eq!(&bulk_string("")[..], &b"$0\r\n\r\n"[..]);
    assert_eq!(&encoding_bulk_string("é")[..], &b"$2\r\n\xc3\xa9\r\n"[..]);
    assert_eq!(&encoding_integer(0)[..], &b":0\r\n"[..]);
    assert_eq!(&encoding_integer(1234)[..], &b":1234\r\n"[..]);
    assert_eq!(&null_bulk_string()[..], &b"$-1\r\n"[..]);
    assert_eq!(&encoding_error("unknown command")[..], &b"-ERR unknown command\r\n"[..]);
    assert_eq!(&encoding_array(&["a", "bc"])[..], &b"*2\r\n$1\r\na\r\n$2\r\nbc\r\n"[..]);
    let owned = vec!["a".to_string(), "b".to_string()];
    assert_eq!(&encoding_string_array(&owned)[..], &b"*2\r\n$1\r\na\r\n$1\r\nb\r\n"[..]);
}

#[test]
fn rdb_transfer_frame() {
    assert_eq!(&rdb_file(&[1, 2, 3])[..], &b"$3\r\n\x01\x02\x03"[..]);
    let (data, n) = receive_rdb_file(b"$3\r\n\x01\x02\x03+OK").unwrap();
    assert_eq!(data, vec![1, 2, 3]);
    assert_eq!(n, 7);
    assert_eq!(receive_rdb_file(b"$3\r\n\x01").unwrap_err(), RespError::Incomplete);
    assert_eq!(receive_rdb_file(b"*3\r\n").unwrap_err(), RespError::Malformed);
}
