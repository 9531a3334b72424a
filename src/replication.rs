//! Replica channels and the pending-acknowledgement counter behind `WAIT`.

use vstd::prelude::*;
use bytes::Bytes;
use tokio::sync::mpsc::UnboundedSender;
use crate::buffer::{bytes_content, share_bytes};

verus! {

#[verifier::external_type_specification]
#[verifier::external_body]
#[verifier::reject_recursive_types(T)]
pub struct ExUnboundedSender<T>(UnboundedSender<T>);

/// Relies on `UnboundedSender::send`: it queues the message without waiting
/// and fails only when the receiving side has been closed or dropped. Which
/// happens depends on the other side, so nothing is promised about the result.
#[verifier::external_body]
fn deliver(tx: &UnboundedSender<Bytes>, msg: Bytes) -> bool {
    tx.send(msg).is_ok()
}

/// One attempted send: the replica's channel and the bytes handed to it.
pub type SendRecord = (UnboundedSender<Bytes>, Seq<u8>);

/// A send of `msg` to each of `replicas`, in order.
pub open spec fn sends_to_all(replicas: Seq<UnboundedSender<Bytes>>, msg: Seq<u8>) -> Seq<SendRecord> {
    replicas.map_values(|t: UnboundedSender<Bytes>| (t, msg))
}

/// The registered replicas, in connection order, and the counter of
/// acknowledgements expected; `sent` records every send attempted.
pub struct Replication {
    replicas: Vec<UnboundedSender<Bytes>>,
    wait: usize,
    sent: Ghost<Seq<SendRecord>>,
}

impl Replication {
    /// The registered replica channels, in registration order.
    pub closed spec fn replicas(&self) -> Seq<UnboundedSender<Bytes>> {
        self.replicas@
    }

    /// How many replicas are registered.
    pub open spec fn replica_count(&self) -> nat {
        self.replicas().len()
    }

    /// Every send attempted so far, in order.
    pub closed spec fn sent_log(&self) -> Seq<SendRecord> {
        self.sent@
    }

    /// The pending-acknowledgement counter.
    pub closed spec fn pending(&self) -> nat {
        self.wait as nat
    }

    /// No replicas, counter at zero, nothing sent.
    pub fn new() -> (r: Self)
        ensures
            r.replicas() == Seq::<UnboundedSender<Bytes>>::empty(),
            r.pending() == 0,
            r.sent_log() == Seq::<SendRecord>::empty(),
    {
        Replication { replicas: Vec::new(), wait: 0, sent: Ghost(Seq::empty()) }
    }

    /// Adds a replica channel at the end; replicas are never removed.
    pub fn register(&mut self, tx: UnboundedSender<Bytes>)
        ensures
            final(self).replicas() == old(self).replicas().push(tx),
            final(self).pending() == old(self).pending(),
            final(self).sent_log() == old(self).sent_log(),
    {
        self.replicas.push(tx);
    }

    pub fn count(&self) -> (r: usize)
        ensures
            r == self.replica_count(),
    {
        self.replicas.len()
    }

    pub fn pending_count(&self) -> (r: usize)
        ensures
            r == self.pending(),
    {
        self.wait
    }

    /// Counts one send: the counter goes up by one when the message was
    /// delivered (and stays put at the largest `usize`).
    pub fn note_delivery(&mut self, delivered: bool)
        ensures
            final(self).replicas() == old(self).replicas(),
            final(self).sent_log() == old(self).sent_log(),
            final(self).pending() == if delivered && old(self).pending() < usize::MAX {
                old(self).pending() + 1
            } else {
                old(self).pending()
            },
    {
        if delivered && self.wait < usize::MAX {
            self.wait = self.wait + 1;
        }
    }

    /// Sends `cmd` to every replica in order, counting each delivery, then
    /// resets the counter to zero. Returns the value the counter reached
    /// before the reset.
    pub fn propagate(&mut self, cmd: &Bytes) -> (peak: usize)
        ensures
            final(self).replicas() == old(self).replicas(),
            final(self).sent_log() == old(self).sent_log() + sends_to_all(
                old(self).replicas(),
                bytes_content(*cmd),
            ),
            final(self).pending() == 0,
            old(self).pending() <= peak <= old(self).pending() + old(self).replica_count(),
    {
        let ghost start = self.wait as nat;
        let ghost log0 = self.sent@;
        let ghost rs = self.replicas@;
        let ghost msg = bytes_content(*cmd);
        let mut i: usize = 0;
        proof {
            assert(sends_to_all(rs.subrange(0, 0), msg) =~= Seq::<SendRecord>::empty());
            assert(log0 + Seq::<SendRecord>::empty() =~= log0);
        }
        while i < self.replicas.len()
            invariant
                self.replicas@ == rs,
                msg == bytes_content(*cmd),
                i <= rs.len(),
                start <= self.wait <= start + i,
                self.sent@ == log0 + sends_to_all(rs.subrange(0, i as int), msg),
            decreases rs.len() - i,
        {
            let copy = share_bytes(cmd);
            let delivered = deliver(&self.replicas[i], copy);
            proof {
                assert(sends_to_all(rs.subrange(0, i + 1), msg) =~= sends_to_all(
                    rs.subrange(0, i as int),
                    msg,
                ).push((rs[i as int], msg)));
            }
            self.sent = Ghost(self.sent@.push((self.replicas@[i as int], bytes_content(copy))));
            proof {
                let a = sends_to_all(rs.subrange(0, i as int), msg);
                let y: SendRecord = (rs[i as int], msg);
                assert(self.sent@ == (log0 + a).push(y));
                assert((log0 + a).push(y) =~= log0 + a.push(y));
            }
            self.note_delivery(delivered);
            i = i + 1;
        }
        proof {
            assert(rs.subrange(0, i as int) =~= rs);
        }
        let peak = self.wait;
        self.wait = 0;
        peak
    }

    /// Whether at least `count` acknowledgements are pending; if so the
    /// counter is reset. Answers at once: `timeout` is not waited for.
    pub fn wait(&mut self, count: usize, timeout: u64) -> (r: bool)
        ensures
            r == (old(self).pending() >= count),
            final(self).pending() == if r { 0 } else { old(self).pending() },
            final(self).replicas() == old(self).replicas(),
            final(self).sent_log() == old(self).sent_log(),
    {
        if self.wait >= count {
            self.wait = 0;
            true
        } else {
            false
        }
    }
}

} // verus!
