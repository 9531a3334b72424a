//! Properties that relate several operations of the keyspace.

use vstd::prelude::*;
use crate::store::{deadline, live_part, lookup, ValueView};

verus! {

/// A value just stored without expiry is what a read returns, at any time.
pub proof fn set_then_get(m: Map<Seq<char>, ValueView>, k: Seq<char>, v: Seq<char>, now: u64)
    ensures
        lookup(m.insert(k, (v, None)), k, now) == Some(v),
{
}

/// A value stored with a time to live `ttl > 0` at time `now` is read back
/// at `now`, and from `now + ttl` on it is neither read back nor listed by
/// `keys`.
pub proof fn set_with_expiry_then_get(
    m: Map<Seq<char>, ValueView>,
    k: Seq<char>,
    v: Seq<char>,
    now: u64,
    ttl: u64,
    later: u64,
)
    requires
        ttl > 0,
        later >= now + ttl,
    ensures
        lookup(m.insert(k, (v, Some(deadline(now, ttl)))), k, now) == Some(v),
        lookup(m.insert(k, (v, Some(deadline(now, ttl)))), k, later) is None,
        !live_part(m.insert(k, (v, Some(deadline(now, ttl)))), later).contains_key(k),
{
}

/// A value stored at `t0` with a time to live `ttl` is read back at every
/// time before `t0 + ttl`. The last representable time is left out: there
/// the deadline is held at `u64::MAX`, which counts as reached.
pub proof fn set_with_expiry_live_before_deadline(
    m: Map<Seq<char>, ValueView>,
    k: Seq<char>,
    v: Seq<char>,
    t0: u64,
    ttl: u64,
    now: u64,
)
    requires
        t0 <= now,
        now < t0 + ttl,
        now < u64::MAX,
    ensures
        lookup(m.insert(k, (v, Some(deadline(t0, ttl)))), k, now) == Some(v),
{
}

/// Storing a key again replaces its value and drops any earlier expiry: with
/// no new expiry the value is read back at every time.
pub proof fn set_overwrites(
    m: Map<Seq<char>, ValueView>,
    k: Seq<char>,
    first: ValueView,
    v: Seq<char>,
    now: u64,
)
    ensures
        lookup(m.insert(k, first).insert(k, (v, None)), k, now) == Some(v),
        m.insert(k, first).insert(k, (v, None)) == m.insert(k, (v, None)),
{
    assert(m.insert(k, first).insert(k, (v, None)) =~= m.insert(k, (v, None)));
}

/// Storing a key again with a time to live replaces the value and the
/// earlier expiry by the new ones.
pub proof fn set_with_expiry_overwrites(
    m: Map<Seq<char>, ValueView>,
    k: Seq<char>,
    first: ValueView,
    v: Seq<char>,
    now: u64,
    ttl: u64,
)
    ensures
        m.insert(k, first).insert(k, (v, Some(deadline(now, ttl)))) == m.insert(
            k,
            (v, Some(deadline(now, ttl))),
        ),
{
    assert(m.insert(k, first).insert(k, (v, Some(deadline(now, ttl)))) =~= m.insert(
        k,
        (v, Some(deadline(now, ttl))),
    ));
}

} // verus!
