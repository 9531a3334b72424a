//! One client connection: the bytes received and not yet handled, and what
//! to do with the next request in them. The caller reads and writes the
//! socket.

use vstd::prelude::*;
use bytes::Bytes;
use crate::buffer::{bytes_content, push_all};
use crate::command::{
    advance_offset, answers_master, execute, execution, interpret, is_getack, parse_command,
    CommandView, Outcome,
};
use crate::resp::{array_frame, encoding_error, error_wire, RespError};
use crate::store::Database;

verus! {

/// What handling the buffered bytes came to.
pub enum ConnectionStep {
    /// No complete request is buffered: read more.
    NeedInput,
    /// A request was handled (or rejected as malformed).
    Handled {
        /// Bytes to write back, if any.
        reply: Option<Bytes>,
        /// The peer is a replica: register this connection's outbound channel.
        register_replica: bool,
    },
}

/// The state of one connection.
pub struct Connection {
    inbox: Vec<u8>,
    offset: u64,
    from_master: bool,
}

impl Connection {
    /// The bytes received and not yet handled.
    pub closed spec fn pending_bytes(&self) -> Seq<u8> {
        self.inbox@
    }

    /// On the link from a master: the bytes of commands handled so far.
    pub closed spec fn stream_offset(&self) -> u64 {
        self.offset
    }

    /// Whether this is a replica's link from its master.
    pub closed spec fn is_master_link(&self) -> bool {
        self.from_master
    }

    /// A connection whose first bytes, `leftover`, were already read.
    pub fn new(from_master: bool, leftover: Vec<u8>) -> (r: Self)
        ensures
            r.pending_bytes() == leftover@,
            r.stream_offset() == 0,
            r.is_master_link() == from_master,
    {
        Connection { inbox: leftover, offset: 0, from_master }
    }

    /// Takes in bytes read from the socket. An empty read means the peer has
    /// closed the connection: the result is then `false`.
    pub fn receive(&mut self, data: &[u8]) -> (open: bool)
        ensures
            open == (data@.len() > 0),
            final(self).pending_bytes() == old(self).pending_bytes() + data@,
            final(self).stream_offset() == old(self).stream_offset(),
            final(self).is_master_link() == old(self).is_master_link(),
    {
        push_all(&mut self.inbox, data);
        data.len() > 0
    }

    /// Handles the next buffered request at time `now`. A malformed request
    /// gets an error reply and the buffer is dropped, as nothing after it
    /// can be framed. On a master link only acknowledgement requests are
    /// answered, and the offset grows by each request's size.
    pub fn step(&mut self, db: &mut Database, now: u64) -> (r: ConnectionStep)
        requires
            old(db).wf(),
        ensures
            final(db).wf(),
            final(self).is_master_link() == old(self).is_master_link(),
            match array_frame(old(self).pending_bytes()) {
                Err(RespError::Incomplete) => {
                    &&& r is NeedInput
                    &&& final(self).pending_bytes() == old(self).pending_bytes()
                    &&& final(self).stream_offset() == old(self).stream_offset()
                    &&& *final(db) == *old(db)
                },
                Err(RespError::Malformed) => {
                    &&& r matches ConnectionStep::Handled { reply, register_replica }
                    &&& !register_replica
                    &&& reply matches Some(b) && bytes_content(b) == error_wire("protocol error"@)
                    &&& final(self).pending_bytes() == Seq::<u8>::empty()
                    &&& final(self).stream_offset() == old(self).stream_offset()
                    &&& *final(db) == *old(db)
                },
                Ok((t, c)) => {
                    &&& r matches ConnectionStep::Handled { reply, register_replica }
                    &&& final(self).pending_bytes() == old(self).pending_bytes().subrange(
                        c as int,
                        old(self).pending_bytes().len() as int,
                    )
                    &&& exists|out: Outcome|
                        #[trigger] execution(
                            *old(db),
                            *final(db),
                            interpret(t),
                            now,
                            old(self).stream_offset(),
                            out,
                        ) && if old(self).is_master_link() {
                            &&& final(self).stream_offset() == if old(self).stream_offset() + c
                                <= u64::MAX {
                                (old(self).stream_offset() + c) as u64
                            } else {
                                u64::MAX
                            }
                            &&& if interpret(t) matches CommandView::Replconf(args) && is_getack(args) {
                                reply matches Some(b) && bytes_content(b) == bytes_content(out.reply)
                            } else {
                                reply is None
                            }
                            &&& !register_replica
                        } else {
                            &&& final(self).stream_offset() == old(self).stream_offset()
                            &&& reply matches Some(b) && bytes_content(b) == bytes_content(out.reply)
                            &&& register_replica == out.register_replica
                        }
                },
            },
    {
        match parse_command(self.inbox.as_slice()) {
            Err(RespError::Incomplete) => ConnectionStep::NeedInput,
            Err(RespError::Malformed) => {
                self.inbox = Vec::new();
                ConnectionStep::Handled {
                    reply: Some(encoding_error("protocol error")),
                    register_replica: false,
                }
            },
            Ok((cmd, consumed)) => {
                let ghost off0 = self.offset;
                let out = execute(db, &cmd, now, self.offset);
                let ghost g = out;
                proof {
                    assert(execution(*old(db), *db, cmd@, now, off0, g));
                }
                let mut rest: Vec<u8> = Vec::new();
                push_all(&mut rest, &self.inbox.as_slice()[consumed..self.inbox.len()]);
                self.inbox = rest;
                if self.from_master {
                    self.offset = advance_offset(self.offset, consumed);
                    let reply = if answers_master(&cmd) {
                        Some(out.reply)
                    } else {
                        None
                    };
                    proof {
                        assert(reply is Some ==> bytes_content(reply->0) == bytes_content(g.reply));
                        let t = array_frame(old(self).pending_bytes())->Ok_0.0;
                        assert(cmd@ == interpret(t));
                        assert(execution(*old(db), *db, interpret(t), now, old(self).stream_offset(), g));
                        assert(if interpret(t) matches CommandView::Replconf(args) && is_getack(args) {
                                reply matches Some(b) && bytes_content(b) == bytes_content(g.reply)
                            } else {
                                reply is None
                            });
                        let c = array_frame(old(self).pending_bytes())->Ok_0.1;
                        assert(self.offset == if old(self).stream_offset() + c <= u64::MAX {
                                (old(self).stream_offset() + c) as u64
                            } else {
                                u64::MAX
                            });
                    }
                    ConnectionStep::Handled { reply, register_replica: false }
                } else {
                    let r = ConnectionStep::Handled {
                        reply: Some(out.reply),
                        register_replica: out.register_replica,
                    };
                    proof {
                        assert(bytes_content(out.reply) == bytes_content(g.reply));
                        assert(out.register_replica == g.register_replica);
                        let t = array_frame(old(self).pending_bytes())->Ok_0.0;
                        assert(cmd@ == interpret(t));
                        assert(execution(*old(db), *db, interpret(t), now, old(self).stream_offset(), g));
                    }
                    r
                }
            },
        }
    }
}

} // verus!
