//! The replica's bootstrap against its master: the request of each step and
//! the decision taken on each reply. The caller does the I/O.

use vstd::prelude::*;
use bytes::Bytes;
use crate::buffer::bytes_content;
use crate::resp::{
    array_wire, encoding_array, receive_rdb_file, parse_simple_string, payload_frame, simple_frame,
    str_views, utf8_all, RespError,
};
use crate::text::{decimal_chars, decimal_string, same_text};

verus! {

/// Where the handshake stands: the step whose reply is awaited next.
#[derive(Debug, Clone, Copy, PartialEq, Eq, Structural)]
pub enum HandshakeStep {
    /// `PING`, answered by `+PONG`.
    Ping,
    /// `REPLCONF listening-port <port>`, answered by `+OK`.
    ListeningPort,
    /// `REPLCONF capa psync2`, answered by `+OK`.
    Capa,
    /// `PSYNC ? -1`, answered by `+FULLRESYNC <id> <offset>`.
    Psync,
    /// The snapshot transfer that follows the full resync.
    Snapshot,
    /// Bootstrap is over; the stream now carries commands.
    Done,
}

/// Why the handshake cannot go on yet, or at all.
#[derive(Debug, Clone, Copy, PartialEq, Eq, Structural)]
pub enum HandshakeError {
    /// The reply has not fully arrived.
    Incomplete,
    /// The master answered something other than what the step expects.
    Unexpected,
}

/// The step after `s`.
pub open spec fn next_step(s: HandshakeStep) -> HandshakeStep {
    match s {
        HandshakeStep::Ping => HandshakeStep::ListeningPort,
        HandshakeStep::ListeningPort => HandshakeStep::Capa,
        HandshakeStep::Capa => HandshakeStep::Psync,
        HandshakeStep::Psync => HandshakeStep::Snapshot,
        _ => HandshakeStep::Done,
    }
}

/// `t` is the simple-string reply that step `s` expects.
pub open spec fn accepts(s: HandshakeStep, t: Seq<char>) -> bool {
    match s {
        HandshakeStep::Ping => t == "PONG"@,
        HandshakeStep::ListeningPort | HandshakeStep::Capa => t == "OK"@,
        HandshakeStep::Psync => t.len() >= 11 && t.subrange(0, 11) == "FULLRESYNC "@,
        _ => false,
    }
}

/// The request that step `s` sends, for a replica listening on `port`.
pub open spec fn request_wire(s: HandshakeStep, port: u16) -> Option<Seq<u8>> {
    match s {
        HandshakeStep::Ping => Some(array_wire(utf8_all(seq!["PING"@]))),
        HandshakeStep::ListeningPort => Some(
            array_wire(utf8_all(seq!["REPLCONF"@, "listening-port"@, decimal_chars(port as nat)])),
        ),
        HandshakeStep::Capa => Some(array_wire(utf8_all(seq!["REPLCONF"@, "capa"@, "psync2"@]))),
        HandshakeStep::Psync => Some(array_wire(utf8_all(seq!["PSYNC"@, "?"@, "-1"@]))),
        _ => None,
    }
}

/// What a reply did to the handshake.
pub struct HandshakeProgress {
    /// The step now awaited.
    pub next: HandshakeStep,
    /// How many bytes of the buffer the reply took.
    pub consumed: usize,
    /// The snapshot, once it has been received.
    pub snapshot: Option<Vec<u8>>,
}

/// The request to send at step `step`; nothing once the requests are over.
pub fn handshake_request(step: HandshakeStep, port: u16) -> (r: Option<Bytes>)
    ensures
        match request_wire(step, port) {
            Some(w) => r matches Some(b) && bytes_content(b) == w,
            None => r is None,
        },
{
    match step {
        HandshakeStep::Ping => {
            let parts: Vec<&str> = vec!["PING"];
            assert(str_views(parts@) =~= seq!["PING"@]);
            Some(encoding_array(parts.as_slice()))
        },
        HandshakeStep::ListeningPort => {
            let p = decimal_string(port as u64);
            let parts: Vec<&str> = vec!["REPLCONF", "listening-port", p.as_str()];
            assert(str_views(parts@) =~= seq!["REPLCONF"@, "listening-port"@, decimal_chars(port as nat)]);
            Some(encoding_array(parts.as_slice()))
        },
        HandshakeStep::Capa => {
            let parts: Vec<&str> = vec!["REPLCONF", "capa", "psync2"];
            assert(str_views(parts@) =~= seq!["REPLCONF"@, "capa"@, "psync2"@]);
            Some(encoding_array(parts.as_slice()))
        },
        HandshakeStep::Psync => {
            let parts: Vec<&str> = vec!["PSYNC", "?", "-1"];
            assert(str_views(parts@) =~= seq!["PSYNC"@, "?"@, "-1"@]);
            Some(encoding_array(parts.as_slice()))
        },
        _ => None,
    }
}

/// Whether `t` opens with `FULLRESYNC `.
fn is_fullresync(t: &str) -> (r: bool)
    ensures
        r == (t@.len() >= 11 && t@.subrange(0, 11) == "FULLRESYNC "@),
{
    let prefix = "FULLRESYNC ";
    proof {
        reveal_strlit("FULLRESYNC ");
    }
    if t.unicode_len() < 11 {
        return false;
    }
    let head = t.substring_char(0, 11);
    same_text(head, prefix)
}

/// Reads the master's reply to step `step` at the start of `buf`.
pub fn handshake_step(step: HandshakeStep, buf: &[u8]) -> (r: Result<HandshakeProgress, HandshakeError>)
    ensures
        step == HandshakeStep::Done ==> r == Err::<HandshakeProgress, HandshakeError>(
            HandshakeError::Unexpected,
        ),
        step == HandshakeStep::Snapshot ==> match payload_frame(buf@) {
            Ok((d, c)) => r matches Ok(p) && p.next == HandshakeStep::Done && p.consumed == c
                && (p.snapshot matches Some(s) && s@ == d),
            Err(RespError::Incomplete) => r == Err::<HandshakeProgress, HandshakeError>(
                HandshakeError::Incomplete,
            ),
            Err(RespError::Malformed) => r == Err::<HandshakeProgress, HandshakeError>(
                HandshakeError::Unexpected,
            ),
        },
        step != HandshakeStep::Done && step != HandshakeStep::Snapshot ==> match simple_frame(buf@) {
            Ok((t, c)) => if accepts(step, t) {
                r matches Ok(p) && p.next == next_step(step) && p.consumed == c && p.snapshot is None
            } else {
                r == Err::<HandshakeProgress, HandshakeError>(HandshakeError::Unexpected)
            },
            Err(RespError::Incomplete) => r == Err::<HandshakeProgress, HandshakeError>(
                HandshakeError::Incomplete,
            ),
            Err(RespError::Malformed) => r == Err::<HandshakeProgress, HandshakeError>(
                HandshakeError::Unexpected,
            ),
        },
{
    match step {
        HandshakeStep::Done => Err(HandshakeError::Unexpected),
        HandshakeStep::Snapshot => match receive_rdb_file(buf) {
            Ok((data, n)) => Ok(
                HandshakeProgress { next: HandshakeStep::Done, consumed: n, snapshot: Some(data) },
            ),
            Err(RespError::Incomplete) => Err(HandshakeError::Incomplete),
            Err(RespError::Malformed) => Err(HandshakeError::Unexpected),
        },
        _ => match parse_simple_string(buf) {
            Ok((text, n)) => {
                let ok = match step {
                    HandshakeStep::Ping => same_text(text.as_str(), "PONG"),
                    HandshakeStep::ListeningPort | HandshakeStep::Capa => same_text(text.as_str(), "OK"),
                    _ => is_fullresync(text.as_str()),
                };
                if ok {
                    let next = match step {
                        HandshakeStep::Ping => HandshakeStep::ListeningPort,
                        HandshakeStep::ListeningPort => HandshakeStep::Capa,
                        HandshakeStep::Capa => HandshakeStep::Psync,
                        _ => HandshakeStep::Snapshot,
                    };
                    Ok(HandshakeProgress { next, consumed: n, snapshot: None })
                } else {
                    Err(HandshakeError::Unexpected)
                }
            },
            Err(RespError::Incomplete) => Err(HandshakeError::Incomplete),
            Err(RespError::Malformed) => Err(HandshakeError::Unexpected),
        },
    }
}

} // verus!
