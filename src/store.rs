//! The keyspace: a map from key to value with lazy expiry, kept as a vector
//! sorted by key so that enumeration comes out in order.

use vstd::prelude::*;
use vstd::utf8::*;
use crate::order::{compare_bytes, key_lt, lemma_encode_injective, lemma_key_lt_total, lemma_key_lt_transitive};
use bytes::Bytes;
use tokio::sync::mpsc::UnboundedSender;
use crate::config::Config;
use crate::rdb::{entry_view, rdb_snapshot, serialize, ExpiringValue, RecordView};
use crate::buffer::bytes_content;
use crate::replication::{sends_to_all, Replication, SendRecord};

verus! {

broadcast use vstd::seq::group_seq_axioms;

/// What the keyspace holds for a key: the value and its optional expiry.
pub type ValueView = (Seq<char>, Option<u64>);

/// An entry with expiry `exp` is logically absent at time `now` (in
/// milliseconds since the Unix epoch) once that time has been reached.
pub open spec fn expired(exp: Option<u64>, now: u64) -> bool {
    exp matches Some(t) && t <= now
}

/// What a read of `k` at `now` finds.
pub open spec fn lookup(m: Map<Seq<char>, ValueView>, k: Seq<char>, now: u64) -> Option<Seq<char>> {
    if m.contains_key(k) && !expired(m[k].1, now) {
        Some(m[k].0)
    } else {
        None
    }
}

/// The keyspace after a read of `k` at `now`: an expired entry is gone.
pub open spec fn after_lookup(m: Map<Seq<char>, ValueView>, k: Seq<char>, now: u64) -> Map<Seq<char>, ValueView> {
    if m.contains_key(k) && expired(m[k].1, now) {
        m.remove(k)
    } else {
        m
    }
}

/// The entries of `m` that are still live at `now`.
pub open spec fn live_part(m: Map<Seq<char>, ValueView>, now: u64) -> Map<Seq<char>, ValueView> {
    Map::new(|k: Seq<char>| m.contains_key(k) && !expired(m[k].1, now), |k: Seq<char>| m[k])
}

/// The texts of a sequence of strings.
pub open spec fn texts(v: Seq<String>) -> Seq<Seq<char>> {
    v.map_values(|s: String| s@)
}

/// `keys` lists the keys strictly in order.
pub open spec fn strictly_sorted(keys: Seq<Seq<char>>) -> bool {
    forall|i: int, j: int| 0 <= i < j < keys.len() ==> key_lt(#[trigger] keys[i], #[trigger] keys[j])
}

fn copy_value(v: &ExpiringValue) -> (r: ExpiringValue)
    ensures
        r.value@ == v.value@,
        r.expires_at == v.expires_at,
{
    ExpiringValue { value: v.value.clone(), expires_at: v.expires_at }
}

/// Key/value entries, strictly sorted by key.
pub struct Keyspace {
    entries: Vec<(String, ExpiringValue)>,
    contents: Ghost<Map<Seq<char>, ValueView>>,
}

impl View for Keyspace {
    type V = Map<Seq<char>, ValueView>;

    closed spec fn view(&self) -> Map<Seq<char>, ValueView> {
        self.contents@
    }
}

impl Keyspace {
    spec fn key_at(&self, i: int) -> Seq<char> {
        self.entries@[i].0@
    }

    spec fn value_at(&self, i: int) -> ValueView {
        (self.entries@[i].1.value@, self.entries@[i].1.expires_at)
    }

    /// The entries are strictly sorted and hold exactly the view.
    pub closed spec fn wf(&self) -> bool {
        &&& forall|i: int, j: int|
            0 <= i < j < self.entries@.len() ==> key_lt(#[trigger] self.key_at(i), #[trigger] self.key_at(j))
        &&& forall|i: int|
            0 <= i < self.entries@.len() ==> self.contents@.contains_key(#[trigger] self.key_at(i))
                && self.contents@[self.key_at(i)] == self.value_at(i)
        &&& forall|k: Seq<char>|
            #[trigger] self.contents@.contains_key(k) ==> exists|i: int|
                0 <= i < self.entries@.len() && self.key_at(i) == k
    }

    /// An empty keyspace.
    pub fn new() -> (r: Self)
        ensures
            r.wf(),
            r@ == Map::<Seq<char>, ValueView>::empty(),
    {
        Keyspace { entries: Vec::new(), contents: Ghost(Map::empty()) }
    }

    /// Where `key` is, or where it would go: every entry before the position
    /// sorts before `key`.
    fn find(&self, key: &str) -> (r: (usize, bool))
        requires
            self.wf(),
        ensures
            r.0 <= self.entries@.len(),
            forall|i: int| 0 <= i < r.0 ==> key_lt(#[trigger] self.key_at(i), key@),
            r.1 ==> r.0 < self.entries@.len() && self.key_at(r.0 as int) == key@,
            !r.1 ==> r.0 == self.entries@.len() || key_lt(key@, self.key_at(r.0 as int)),
            r.1 <==> self@.contains_key(key@),
    {
        let kb = key.as_bytes();
        let mut i: usize = 0;
        while i < self.entries.len()
            invariant
                self.wf(),
                kb@ == encode_utf8(key@),
                i <= self.entries@.len(),
                forall|j: int| 0 <= j < i ==> key_lt(#[trigger] self.key_at(j), key@),
            decreases self.entries@.len() - i,
        {
            let c = compare_bytes(self.entries[i].0.as_str().as_bytes(), kb);
            if c == 0 {
                proof {
                    lemma_encode_injective(self.key_at(i as int), key@);
                }
                return (i, true);
            }
            if c > 0 {
                proof {
                    self.lemma_absent(key@, i as int);
                }
                return (i, false);
            }
            i = i + 1;
        }
        proof {
            self.lemma_absent(key@, i as int);
        }
        (i, false)
    }

    /// Inserts or overwrites the entry for `key`.
    pub fn put(&mut self, key: String, value: ExpiringValue)
        requires
            old(self).wf(),
        ensures
            final(self).wf(),
            final(self)@ == old(self)@.insert(key@, (value.value@, value.expires_at)),
    {
        let (p, found) = self.find(key.as_str());
        let ghost kv = key@;
        let ghost vv: ValueView = (value.value@, value.expires_at);
        let ghost prev = *self;
        if found {
            self.entries.remove(p);
            self.entries.insert(p, (key, value));
            self.contents = Ghost(self.contents@.insert(kv, vv));
            proof {
                assert(self.entries@ =~= prev.entries@.update(p as int, self.entries@[p as int]));
                assert forall|i: int, j: int|
                    0 <= i < j < self.entries@.len() implies key_lt(#[trigger] self.key_at(i), #[trigger] self.key_at(j)) by {
                    assert(prev.key_at(i) == self.key_at(i) || i == p);
                    assert(prev.key_at(j) == self.key_at(j) || j == p);
                }
                assert forall|i: int| 0 <= i < self.entries@.len() implies self.contents@.contains_key(
                    #[trigger] self.key_at(i),
                ) && self.contents@[self.key_at(i)] == self.value_at(i) by {
                    if i != p {
                        assert(self.key_at(i) == prev.key_at(i));
                        assert(self.value_at(i) == prev.value_at(i));
                        if i < p {
                            assert(key_lt(prev.key_at(i), prev.key_at(p as int)));
                        } else {
                            assert(key_lt(prev.key_at(p as int), prev.key_at(i)));
                        }
                        lemma_key_lt_total(kv, kv);
                    }
                }
                assert forall|k: Seq<char>| #[trigger] self.contents@.contains_key(k) implies exists|i: int|
                    0 <= i < self.entries@.len() && self.key_at(i) == k by {
                    if k == kv {
                        assert(self.key_at(p as int) == k);
                    } else {
                        let i = choose|i: int| 0 <= i < prev.entries@.len() && prev.key_at(i) == k;
                        assert(self.key_at(i) == k);
                    }
                }
            }
        } else {
            self.entries.insert(p, (key, value));
            self.contents = Ghost(self.contents@.insert(kv, vv));
            proof {
                let n = self.entries@.len();
                assert forall|i: int| 0 <= i < n && i != p implies #[trigger] self.key_at(i) == prev.key_at(
                    if i < p { i } else { i - 1 },
                ) && self.value_at(i) == prev.value_at(if i < p { i } else { i - 1 }) by {}
                assert forall|i: int, j: int|
                    0 <= i < j < n implies key_lt(#[trigger] self.key_at(i), #[trigger] self.key_at(j)) by {
                    let oi = if i < p { i } else { i - 1 };
                    let oj = if j < p { j } else { j - 1 };
                    if i == p {
                        if oj > p {
                            lemma_key_lt_transitive(kv, prev.key_at(p as int), prev.key_at(oj));
                        }
                    } else if j == p {
                    } else {
                        assert(self.key_at(i) == prev.key_at(oi));
                        assert(self.key_at(j) == prev.key_at(oj));
                    }
                }
                assert forall|i: int| 0 <= i < n implies self.contents@.contains_key(
                    #[trigger] self.key_at(i),
                ) && self.contents@[self.key_at(i)] == self.value_at(i) by {
                    if i != p {
                        let oi = if i < p { i } else { i - 1 };
                        assert(self.key_at(i) == prev.key_at(oi));
                        assert(prev.contents@.contains_key(prev.key_at(oi)));
                    }
                }
                assert forall|k: Seq<char>| #[trigger] self.contents@.contains_key(k) implies exists|i: int|
                    0 <= i < self.entries@.len() && self.key_at(i) == k by {
                    if k == kv {
                        assert(self.key_at(p as int) == k);
                    } else {
                        let i = choose|i: int| 0 <= i < prev.entries@.len() && prev.key_at(i) == k;
                        let ni = if i < p { i } else { i + 1 };
                        assert(self.key_at(ni) == k);
                    }
                }
            }
        }
    }

    /// Drops the entry at position `p`.
    fn remove_at(&mut self, p: usize)
        requires
            old(self).wf(),
            p < old(self).entries@.len(),
        ensures
            final(self).wf(),
            final(self)@ == old(self)@.remove(old(self).key_at(p as int)),
    {
        let ghost prev = *self;
        let ghost kv = self.key_at(p as int);
        self.entries.remove(p);
        self.contents = Ghost(self.contents@.remove(kv));
        proof {
            let n = self.entries@.len();
            assert forall|i: int| 0 <= i < n implies #[trigger] self.key_at(i) == prev.key_at(
                if i < p { i } else { i + 1 },
            ) && self.value_at(i) == prev.value_at(if i < p { i } else { i + 1 }) by {}
            assert forall|i: int, j: int|
                0 <= i < j < n implies key_lt(#[trigger] self.key_at(i), #[trigger] self.key_at(j)) by {
                let oi = if i < p { i } else { i + 1 };
                let oj = if j < p { j } else { j + 1 };
                assert(self.key_at(i) == prev.key_at(oi));
                assert(self.key_at(j) == prev.key_at(oj));
            }
            assert forall|i: int| 0 <= i < n implies self.contents@.contains_key(
                #[trigger] self.key_at(i),
            ) && self.contents@[self.key_at(i)] == self.value_at(i) by {
                let oi = if i < p { i } else { i + 1 };
                assert(self.key_at(i) == prev.key_at(oi));
                lemma_key_lt_total(kv, kv);
                if oi < p {
                    assert(key_lt(prev.key_at(oi), kv));
                } else {
                    assert(key_lt(kv, prev.key_at(oi)));
                }
            }
            assert forall|k: Seq<char>| #[trigger] self.contents@.contains_key(k) implies exists|i: int|
                0 <= i < self.entries@.len() && self.key_at(i) == k by {
                let i = choose|i: int| 0 <= i < prev.entries@.len() && prev.key_at(i) == k;
                assert(i != p);
                let ni = if i < p { i } else { i - 1 };
                assert(self.key_at(ni) == k);
            }
        }
    }

    /// The value of `key` at time `now`. An entry that has expired is
    /// removed and reported absent.
    pub fn get(&mut self, key: &str, now: u64) -> (r: Option<String>)
        requires
            old(self).wf(),
        ensures
            final(self).wf(),
            crate::config::opt_view(r) == lookup(old(self)@, key@, now),
            final(self)@ == after_lookup(old(self)@, key@, now),
    {
        let (p, found) = self.find(key);
        if !found {
            return None;
        }
        let is_expired = match self.entries[p].1.expires_at {
            Some(t) => t <= now,
            None => false,
        };
        if is_expired {
            self.remove_at(p);
            None
        } else {
            Some(self.entries[p].1.value.clone())
        }
    }

    /// Removes every entry that has expired at `now` and lists the keys that
    /// remain, in ascending order.
    pub fn keys(&mut self, now: u64) -> (r: Vec<String>)
        requires
            old(self).wf(),
        ensures
            final(self).wf(),
            final(self)@ == live_part(old(self)@, now),
            strictly_sorted(texts(r@)),
            forall|k: Seq<char>|
                live_part(old(self)@, now).contains_key(k) <==> #[trigger] texts(r@).contains(k),
    {
        let ghost prev = *self;
        let ghost target = live_part(prev@, now);
        let mut kept: Vec<(String, ExpiringValue)> = Vec::new();
        let mut names: Vec<String> = Vec::new();
        let ghost mut origin: Seq<int> = seq![];
        let mut i: usize = 0;
        while i < self.entries.len()
            invariant
                *self == prev,
                prev.wf(),
                target == live_part(prev@, now),
                i <= prev.entries@.len(),
                kept@.len() == names@.len(),
                forall|a: int| 0 <= a < kept@.len() ==> #[trigger] kept@[a].0@ == names@[a]@,
                origin.len() == kept@.len(),
                forall|a: int|
                    0 <= a < kept@.len() ==> 0 <= #[trigger] origin[a] < i && prev.key_at(origin[a])
                        == kept@[a].0@ && prev.value_at(origin[a]) == (
                        kept@[a].1.value@,
                        kept@[a].1.expires_at,
                    ) && !expired(kept@[a].1.expires_at, now),
                forall|a: int, c: int|
                    0 <= a < c < kept@.len() ==> key_lt(#[trigger] kept@[a].0@, #[trigger] kept@[c].0@),
                kept@.len() > 0 ==> forall|b: int|
                    i <= b < prev.entries@.len() ==> key_lt(kept@.last().0@, #[trigger] prev.key_at(b)),
                forall|b: int|
                    0 <= b < i && !expired(#[trigger] prev.value_at(b).1, now) ==> exists|a: int|
                        0 <= a < kept@.len() && kept@[a].0@ == prev.key_at(b),
            decreases prev.entries@.len() - i,
        {
            let is_expired = match self.entries[i].1.expires_at {
                Some(t) => t <= now,
                None => false,
            };
            let ghost kept0 = kept@;
            if !is_expired {
                let name = self.entries[i].0.clone();
                let value = copy_value(&self.entries[i].1);
                names.push(self.entries[i].0.clone());
                kept.push((name, value));
                proof {
                    let last = kept@.len() - 1;
                    assert(kept@[last].0@ == prev.key_at(i as int));
                    assert forall|b: int| i + 1 <= b < prev.entries@.len() implies key_lt(
                        kept@.last().0@,
                        #[trigger] prev.key_at(b),
                    ) by {}
                    origin = origin.push(i as int);
                    assert forall|a: int, c: int| 0 <= a < c < kept@.len() implies key_lt(
                        #[trigger] kept@[a].0@,
                        #[trigger] kept@[c].0@,
                    ) by {
                        if c == last {
                            assert(kept@[a] == kept0[a]);
                            assert(key_lt(kept0.last().0@, prev.key_at(i as int)));
                            if a < kept0.len() - 1 {
                                lemma_key_lt_transitive(kept0[a].0@, kept0.last().0@, prev.key_at(i as int));
                            }
                        } else {
                            assert(kept@[a] == kept0[a]);
                            assert(kept@[c] == kept0[c]);
                        }
                    }
                }
            }
            proof {
                assert forall|b: int|
                    0 <= b < i + 1 && !expired(#[trigger] prev.value_at(b).1, now) implies exists|a: int|
                        0 <= a < kept@.len() && kept@[a].0@ == prev.key_at(b) by {
                    if b == i {
                        assert(kept@[kept@.len() - 1].0@ == prev.key_at(b));
                    } else {
                        let a = choose|a: int| 0 <= a < kept0.len() && kept0[a].0@ == prev.key_at(b);
                        assert(kept@[a] == kept0[a]);
                    }
                }
                if kept@.len() > 0 && is_expired {
                    assert forall|b: int| i + 1 <= b < prev.entries@.len() implies key_lt(
                        kept@.last().0@,
                        #[trigger] prev.key_at(b),
                    ) by {}
                }
            }
            i = i + 1;
        }
        self.entries = kept;
        self.contents = Ghost(target);
        proof {
            assert forall|a: int, c: int|
                0 <= a < c < self.entries@.len() implies key_lt(#[trigger] self.key_at(a), #[trigger] self.key_at(c)) by {
                assert(self.key_at(a) == self.entries@[a].0@);
            }
            assert forall|a: int| 0 <= a < self.entries@.len() implies self.contents@.contains_key(
                #[trigger] self.key_at(a),
            ) && self.contents@[self.key_at(a)] == self.value_at(a) by {
                let b = origin[a];
                assert(prev.contents@.contains_key(prev.key_at(b)));
            }
            assert forall|k: Seq<char>| #[trigger] self.contents@.contains_key(k) implies exists|a: int|
                0 <= a < self.entries@.len() && self.key_at(a) == k by {
                let b = choose|b: int| 0 <= b < prev.entries@.len() && prev.key_at(b) == k;
                assert(!expired(prev.value_at(b).1, now));
                let a = choose|a: int| 0 <= a < kept@.len() && kept@[a].0@ == prev.key_at(b);
                assert(self.key_at(a) == k);
            }
            let views = texts(names@);
            assert forall|a: int, c: int| 0 <= a < c < views.len() implies key_lt(
                #[trigger] views[a],
                #[trigger] views[c],
            ) by {
                assert(views[a] == self.entries@[a].0@);
                assert(views[c] == self.entries@[c].0@);
            }
            assert forall|k: Seq<char>|
                target.contains_key(k) <==> #[trigger] views.contains(k) by {
                if target.contains_key(k) {
                    let b = choose|b: int| 0 <= b < prev.entries@.len() && prev.key_at(b) == k;
                    let a = choose|a: int| 0 <= a < self.entries@.len() && self.entries@[a].0@ == prev.key_at(b);
                    assert(views[a] == k);
                }
                if views.contains(k) {
                    let a = choose|a: int| 0 <= a < views.len() && views[a] == k;
                    assert(self.contents@.contains_key(self.key_at(a)));
                }
            }
        }
        names
    }

    /// A key that falls strictly between the entries before `p` and those
    /// from `p` on is not in the keyspace.
    proof fn lemma_absent(&self, k: Seq<char>, p: int)
        requires
            self.wf(),
            0 <= p <= self.entries@.len(),
            forall|j: int| 0 <= j < p ==> key_lt(#[trigger] self.key_at(j), k),
            p == self.entries@.len() || key_lt(k, self.key_at(p)),
        ensures
            !self@.contains_key(k),
    {
        if self.contents@.contains_key(k) {
            let i = choose|i: int| 0 <= i < self.entries@.len() && self.key_at(i) == k;
            lemma_key_lt_total(k, k);
            if i >= p {
                if i > p {
                    lemma_key_lt_transitive(k, self.key_at(p), self.key_at(i));
                }
            }
        }
    }
}

/// The keyspace that loading `recs` in order yields: a later record for a key
/// replaces an earlier one.
pub open spec fn records_map(recs: Seq<RecordView>) -> Map<Seq<char>, ValueView>
    decreases recs.len(),
{
    if recs.len() == 0 {
        Map::empty()
    } else {
        records_map(recs.drop_last()).insert(recs.last().0, (recs.last().1, recs.last().2))
    }
}

/// `now + ttl`, or the largest time when that does not fit.
pub open spec fn deadline(now: u64, ttl: u64) -> u64 {
    if now + ttl <= u64::MAX {
        (now + ttl) as u64
    } else {
        u64::MAX
    }
}

/// The server state shared by all connections: keyspace, configuration and
/// replication. Callers serialize access to it.
pub struct Database {
    keyspace: Keyspace,
    config: Config,
    replication: Replication,
}

impl View for Database {
    type V = Map<Seq<char>, ValueView>;

    closed spec fn view(&self) -> Map<Seq<char>, ValueView> {
        self.keyspace@
    }
}

impl Database {
    pub closed spec fn wf(&self) -> bool {
        self.keyspace.wf()
    }

    pub closed spec fn settings(&self) -> Config {
        self.config
    }

    /// The registered replica channels, in registration order.
    pub closed spec fn replica_list(&self) -> Seq<UnboundedSender<Bytes>> {
        self.replication.replicas()
    }

    pub open spec fn replica_count(&self) -> nat {
        self.replica_list().len()
    }

    /// Every send to a replica attempted so far, in order.
    pub closed spec fn sent_log(&self) -> Seq<SendRecord> {
        self.replication.sent_log()
    }

    pub closed spec fn pending(&self) -> nat {
        self.replication.pending()
    }

    /// An empty keyspace with no replicas.
    pub fn new(config: Config) -> (r: Self)
        ensures
            r.wf(),
            r@ == Map::<Seq<char>, ValueView>::empty(),
            r.settings() == config,
            r.replica_list() == Seq::<UnboundedSender<Bytes>>::empty(),
            r.sent_log() == Seq::<SendRecord>::empty(),
            r.pending() == 0,
    {
        Database { keyspace: Keyspace::new(), config, replication: Replication::new() }
    }

    /// A keyspace seeded from a snapshot: its records live at `now`, later
    /// ones replacing earlier ones for the same key. A snapshot that does not
    /// decode leaves the keyspace empty. The whole buffer is decoded, however
    /// long it is; the caller passes the entire snapshot file.
    pub fn from_snapshot(config: Config, snapshot: &[u8], now: u64) -> (r: Self)
        ensures
            r.wf(),
            r@ == match rdb_snapshot(snapshot@, now) {
                Some(recs) => records_map(recs),
                None => Map::<Seq<char>, ValueView>::empty(),
            },
            r.settings() == config,
            r.replica_list() == Seq::<UnboundedSender<Bytes>>::empty(),
            r.sent_log() == Seq::<SendRecord>::empty(),
            r.pending() == 0,
    {
        let mut db = Database::new(config);
        match serialize(snapshot, now) {
            Some(entries) => {
                let ghost recs = entries@.map_values(|e: (String, ExpiringValue)| entry_view(e));
                let rest = entries;
                let mut loaded: Vec<(String, ExpiringValue)> = Vec::new();
                let ghost total = rest@.len();
                let mut i: usize = 0;
                proof {
                    assert(recs.subrange(0, 0) =~= Seq::<RecordView>::empty());
                }
                while i < rest.len()
                    invariant
                        db.wf(),
                        db.settings() == config,
                        db.replica_list() == Seq::<UnboundedSender<Bytes>>::empty(),
                        db.sent_log() == Seq::<SendRecord>::empty(),
                        db.pending() == 0,
                        rest@.len() == total,
                        recs.len() == total,
                        i <= total,
                        forall|j: int| i <= j < total ==> entry_view(#[trigger] rest@[j]) == recs[j],
                        db@ == records_map(recs.subrange(0, i as int)),
                    decreases total - i,
                {
                    let key = rest[i].0.clone();
                    let value = copy_value(&rest[i].1);
                    db.keyspace.put(key, value);
                    proof {
                        let next = recs.subrange(0, i + 1);
                        assert(next.drop_last() =~= recs.subrange(0, i as int));
                    }
                    i = i + 1;
                }
                proof {
                    assert(recs.subrange(0, i as int) =~= recs);
                }
                db
            },
            None => db,
        }
    }

    pub fn config(&self) -> (r: &Config)
        ensures
            *r == self.settings(),
    {
        &self.config
    }

    /// Stores `value` under `key` with no expiry.
    pub fn set(&mut self, key: &str, value: &str)
        requires
            old(self).wf(),
        ensures
            final(self).wf(),
            final(self)@ == old(self)@.insert(key@, (value@, None)),
            final(self).settings() == old(self).settings(),
            final(self).replica_list() == old(self).replica_list(),
            final(self).sent_log() == old(self).sent_log(),
            final(self).pending() == old(self).pending(),
    {
        let v = ExpiringValue { value: value.to_owned(), expires_at: None };
        self.keyspace.put(key.to_owned(), v);
    }

    /// Stores `value` under `key`, to expire `expiry_in_ms` milliseconds
    /// after `now`.
    pub fn set_with_expire(&mut self, key: &str, value: &str, expiry_in_ms: u64, now: u64)
        requires
            old(self).wf(),
        ensures
            final(self).wf(),
            final(self)@ == old(self)@.insert(key@, (value@, Some(deadline(now, expiry_in_ms)))),
            final(self).settings() == old(self).settings(),
            final(self).replica_list() == old(self).replica_list(),
            final(self).sent_log() == old(self).sent_log(),
            final(self).pending() == old(self).pending(),
    {
        let at = if expiry_in_ms <= u64::MAX - now {
            now + expiry_in_ms
        } else {
            u64::MAX
        };
        let v = ExpiringValue { value: value.to_owned(), expires_at: Some(at) };
        self.keyspace.put(key.to_owned(), v);
    }

    /// The value of `key` at time `now`; an expired entry is removed.
    pub fn get(&mut self, key: &str, now: u64) -> (r: Option<String>)
        requires
            old(self).wf(),
        ensures
            final(self).wf(),
            crate::config::opt_view(r) == lookup(old(self)@, key@, now),
            final(self)@ == after_lookup(old(self)@, key@, now),
            final(self).settings() == old(self).settings(),
            final(self).replica_list() == old(self).replica_list(),
            final(self).sent_log() == old(self).sent_log(),
            final(self).pending() == old(self).pending(),
    {
        self.keyspace.get(key, now)
    }

    /// The keys live at `now`, ascending; expired entries are removed on the
    /// way. Every key is listed whatever the pattern.
    pub fn keys(&mut self, pattern: &str, now: u64) -> (r: Vec<String>)
        requires
            old(self).wf(),
        ensures
            final(self).wf(),
            final(self)@ == live_part(old(self)@, now),
            strictly_sorted(texts(r@)),
            forall|k: Seq<char>|
                live_part(old(self)@, now).contains_key(k) <==> #[trigger] texts(r@).contains(k),
            final(self).settings() == old(self).settings(),
            final(self).replica_list() == old(self).replica_list(),
            final(self).sent_log() == old(self).sent_log(),
            final(self).pending() == old(self).pending(),
    {
        self.keyspace.keys(now)
    }

    /// `CONFIG GET` for `dir` and `dbfilename`.
    pub fn config_get(&self, key: &str) -> (r: Option<String>)
        ensures
            crate::config::opt_view(r) == (if key@ == "dir"@ {
                crate::config::opt_view(self.settings().dir)
            } else if key@ == "dbfilename"@ {
                crate::config::opt_view(self.settings().dbfilename)
            } else {
                None
            }),
    {
        self.config.get_info(key)
    }

    /// Registers the outbound channel of a replica connection.
    pub fn add_replication(&mut self, tx: UnboundedSender<Bytes>)
        ensures
            final(self).wf() == old(self).wf(),
            final(self)@ == old(self)@,
            final(self).settings() == old(self).settings(),
            final(self).replica_list() == old(self).replica_list().push(tx),
            final(self).sent_log() == old(self).sent_log(),
            final(self).pending() == old(self).pending(),
    {
        self.replication.register(tx);
    }

    /// Sends a write command to every replica; see `Replication::propagate`.
    pub fn spread(&mut self, cmd: &Bytes) -> (peak: usize)
        ensures
            final(self).wf() == old(self).wf(),
            final(self)@ == old(self)@,
            final(self).settings() == old(self).settings(),
            final(self).replica_list() == old(self).replica_list(),
            final(self).sent_log() == old(self).sent_log() + sends_to_all(
                old(self).replica_list(),
                bytes_content(*cmd),
            ),
            final(self).pending() == 0,
            old(self).pending() <= peak <= old(self).pending() + old(self).replica_count(),
    {
        self.replication.propagate(cmd)
    }

    pub fn replication_count(&self) -> (r: usize)
        ensures
            r == self.replica_count(),
    {
        self.replication.count()
    }

    pub fn pending_count(&self) -> (r: usize)
        ensures
            r == self.pending(),
    {
        self.replication.pending_count()
    }

    /// See `Replication::wait`.
    pub fn wait(&mut self, count: usize, timeout: u64) -> (r: bool)
        ensures
            final(self).wf() == old(self).wf(),
            final(self)@ == old(self)@,
            final(self).settings() == old(self).settings(),
            r == (old(self).pending() >= count),
            final(self).pending() == if r { 0 } else { old(self).pending() },
            final(self).replica_list() == old(self).replica_list(),
            final(self).sent_log() == old(self).sent_log(),
    {
        self.replication.wait(count, timeout)
    }
}

} // verus!
