//! The binary snapshot format: length encoding, records, and the empty
//! snapshot that a master sends to a fresh replica.

use vstd::prelude::*;
use vstd::utf8::*;
use crate::buffer::push_all;
use crate::resp::{lemma_run_before_scan, run_before};
use crate::text::utf8_to_string;

verus! {

broadcast use vstd::seq::group_seq_axioms;

/// A value with an optional absolute expiry, in milliseconds since the Unix
/// epoch.
#[derive(Debug)]
pub struct ExpiringValue {
    pub value: String,
    pub expires_at: Option<u64>,
}

/// A decoded record: key, value and expiry.
pub type RecordView = (Seq<char>, Seq<char>, Option<u64>);

pub open spec fn entry_view(e: (String, ExpiringValue)) -> RecordView {
    (e.0@, e.1.value@, e.1.expires_at)
}

/// A big-endian number of four bytes.
pub open spec fn be32(b0: u8, b1: u8, b2: u8, b3: u8) -> nat {
    b0 as nat * 16777216 + b1 as nat * 65536 + b2 as nat * 256 + b3 as nat
}

/// The length encoding: the top two bits of the first byte select a 6-bit
/// value, a 14-bit value over two bytes, or a big-endian 32-bit value in the
/// next four bytes; the fourth selector is not supported. On success, the
/// value and the number of bytes it took.
pub open spec fn rdb_length(buf: Seq<u8>) -> Option<(nat, nat)> {
    if buf.len() == 0 {
        None
    } else {
        let tag = buf[0] / 64;
        let low = (buf[0] % 64) as nat;
        if tag == 0 {
            Some((low, 1))
        } else if tag == 1 {
            if buf.len() < 2 {
                None
            } else {
                Some((low * 256 + buf[1] as nat, 2))
            }
        } else if tag == 2 {
            if buf.len() < 5 {
                None
            } else {
                Some((be32(buf[1], buf[2], buf[3], buf[4]), 5))
            }
        } else {
            None
        }
    }
}

/// Decodes a length at the start of `buf`: the value and the bytes it took.
pub fn length_encode(buf: &[u8]) -> (r: Option<(usize, usize)>)
    ensures
        match rdb_length(buf@) {
            Some((v, c)) => r == Some((v as usize, c as usize)),
            None => r is None,
        },
        r matches Some((v, c)) ==> 1 <= c <= buf@.len(),
{
    if buf.len() == 0 {
        return None;
    }
    let tag = buf[0] / 64;
    let low = buf[0] % 64;
    if tag == 0 {
        Some((low as usize, 1))
    } else if tag == 1 {
        if buf.len() < 2 {
            return None;
        }
        Some(((low as usize) * 256 + buf[1] as usize, 2))
    } else if tag == 2 {
        if buf.len() < 5 {
            return None;
        }
        let v: u32 = (buf[1] as u32) * 16777216 + (buf[2] as u32) * 65536 + (buf[3] as u32) * 256
            + buf[4] as u32;
        Some((v as usize, 5))
    } else {
        None
    }
}

/// A little-endian number: the first byte is the least significant.
pub open spec fn le_value(b: Seq<u8>) -> nat
    decreases b.len(),
{
    if b.len() == 0 {
        0
    } else {
        b[0] as nat + 256 * le_value(b.drop_first())
    }
}

pub open spec fn pow256(k: nat) -> nat
    decreases k,
{
    if k == 0 {
        1
    } else {
        256 * pow256((k - 1) as nat)
    }
}

proof fn lemma_le_value_bound(b: Seq<u8>)
    ensures
        le_value(b) < pow256(b.len()),
    decreases b.len(),
{
    if b.len() > 0 {
        lemma_le_value_bound(b.drop_first());
        let r = le_value(b.drop_first());
        let p = pow256(b.drop_first().len());
        assert(b[0] as nat + 256 * r < 256 * p) by (nonlinear_arith)
            requires
                r < p,
                b[0] < 256,
        ;
    }
}

proof fn lemma_pow256_small(k: nat)
    requires
        k <= 8,
    ensures
        pow256(k) <= 18446744073709551616,
{
    reveal_with_fuel(pow256, 9);
}

/// Reads eight little-endian bytes of `buf` from `start`.
fn read_le64(buf: &[u8], start: usize) -> (r: u64)
    requires
        start + 8 <= buf@.len(),
    ensures
        r as nat == le_value(buf@.subrange(start as int, start + 8)),
{
    let ghost b = buf@.subrange(start as int, start + 8);
    let n = buf.len();
    let end = start + 8;
    let mut v: u64 = 0;
    let mut i: usize = 8;
    proof {
        assert(b.subrange(8, 8) =~= Seq::<u8>::empty());
    }
    while i > 0
        invariant
            i <= 8,
            end == start + 8,
            end <= buf@.len(),
            b == buf@.subrange(start as int, end as int),
            v as nat == le_value(b.subrange(i as int, 8)),
        decreases i,
    {
        let ghost tail = b.subrange(i - 1, 8);
        proof {
            assert(tail.drop_first() =~= b.subrange(i as int, 8));
            lemma_le_value_bound(tail);
            lemma_pow256_small((9 - i) as nat);
        }
        let x = buf[start + (i - 1)] as u64;
        assert(x == tail[0]);
        v = v * 256 + x;
        i = i - 1;
    }
    proof {
        assert(b.subrange(0, 8) =~= b);
    }
    v
}

/// One record: an optional expiry marker `0xFC` with eight little-endian
/// bytes of milliseconds, a value-type byte, then the key and the value, each
/// length-prefixed UTF-8 text. On success, the record and its size in bytes.
pub open spec fn rdb_record(buf: Seq<u8>) -> Option<(RecordView, nat)> {
    if buf.len() == 0 {
        None
    } else {
        let expiring = buf[0] == 0xFC;
        let pos: int = if expiring { 10 } else { 1 };
        if buf.len() < pos {
            None
        } else {
            match rdb_length(buf.subrange(pos, buf.len() as int)) {
                None => None,
                Some((kl, o1)) => {
                    let kstart = pos + o1;
                    let kend = kstart + kl;
                    if kend > buf.len() {
                        None
                    } else {
                        match rdb_length(buf.subrange(kend, buf.len() as int)) {
                            None => None,
                            Some((vl, o2)) => {
                                let vstart = kend + o2;
                                let vend = vstart + vl;
                                let key = buf.subrange(kstart, kend);
                                let value = buf.subrange(vstart, vend);
                                if vend > buf.len() || !valid_utf8(key) || !valid_utf8(value) {
                                    None
                                } else {
                                    let expiry = if expiring {
                                        Some(le_value(buf.subrange(1, 9)) as u64)
                                    } else {
                                        None
                                    };
                                    Some(((decode_utf8(key), decode_utf8(value), expiry), vend as nat))
                                }
                            },
                        }
                    }
                },
            }
        }
    }
}

/// Text of `buf[start..end]`, if it is UTF-8.
fn text_at(buf: &[u8], start: usize, end: usize) -> (r: Option<String>)
    requires
        start <= end <= buf@.len(),
    ensures
        r is Some <==> valid_utf8(buf@.subrange(start as int, end as int)),
        r matches Some(s) ==> s@ == decode_utf8(buf@.subrange(start as int, end as int)),
{
    let mut bytes: Vec<u8> = Vec::new();
    push_all(&mut bytes, &buf[start..end]);
    utf8_to_string(bytes)
}

/// Decodes one record at the start of `buf`: key, value with expiry, and the
/// number of bytes it took.
pub fn serialize_kv(buf: &[u8]) -> (r: Option<(String, ExpiringValue, usize)>)
    ensures
        match rdb_record(buf@) {
            Some((rv, c)) => r matches Some((k, v, n)) && (k@, v.value@, v.expires_at) == rv
                && n == c,
            None => r is None,
        },
        r matches Some((k, v, n)) ==> n <= buf@.len(),
{
    let len = buf.len();
    if len == 0 {
        return None;
    }
    let expiring = buf[0] == 0xFC;
    let pos: usize = if expiring { 10 } else { 1 };
    if len < pos {
        return None;
    }
    let (key_len, o1) = match length_encode(&buf[pos..len]) {
        Some(p) => p,
        None => return None,
    };
    let kstart = pos + o1;
    if len - kstart < key_len {
        return None;
    }
    let kend = kstart + key_len;
    let (value_len, o2) = match length_encode(&buf[kend..len]) {
        Some(p) => p,
        None => return None,
    };
    let vstart = kend + o2;
    if len - vstart < value_len {
        return None;
    }
    let vend = vstart + value_len;
    let key = match text_at(buf, kstart, kend) {
        Some(k) => k,
        None => return None,
    };
    let value = match text_at(buf, vstart, vend) {
        Some(v) => v,
        None => return None,
    };
    let expires_at = if expiring {
        Some(read_le64(buf, 1))
    } else {
        None
    };
    Some((key, ExpiringValue { value, expires_at }, vend))
}

/// `n` records one after another.
pub open spec fn rdb_records(buf: Seq<u8>, n: nat) -> Option<(Seq<RecordView>, nat)>
    decreases n,
{
    if n == 0 {
        Some((seq![], 0))
    } else {
        match rdb_records(buf, (n - 1) as nat) {
            None => None,
            Some((recs, c)) => match rdb_record(buf.subrange(c as int, buf.len() as int)) {
                None => None,
                Some((x, d)) => Some((recs.push(x), c + d)),
            },
        }
    }
}

/// A record is still live at `now` unless its expiry lies before `now`.
pub open spec fn live_at(r: RecordView, now: u64) -> bool {
    !(r.2 matches Some(t) && t < now)
}

/// The live records of a snapshot: after the header, the first database
/// selector `0xFB`, the table size and the expiry-table size as lengths, then
/// as many records as the table size says. Records that expired before `now`
/// are left out. A snapshot that reaches its end marker `0xFF` without a
/// database selector holds no records; one that has neither is truncated.
pub open spec fn rdb_snapshot(buf: Seq<u8>, now: u64) -> Option<Seq<RecordView>> {
    let m = run_before(buf, 0xFB) as int;
    if m >= buf.len() {
        if run_before(buf, 0xFF) < buf.len() {
            Some(seq![])
        } else {
            None
        }
    } else {
        let body = buf.subrange(m + 1, buf.len() as int);
        match rdb_length(body) {
            None => None,
            Some((size, o1)) => match rdb_length(body.subrange(o1 as int, body.len() as int)) {
                None => None,
                Some((_, o2)) => match rdb_records(
                    body.subrange((o1 + o2) as int, body.len() as int),
                    size,
                ) {
                    None => None,
                    Some((recs, _)) => Some(recs.filter(|r: RecordView| live_at(r, now))),
                },
            },
        }
    }
}

/// The position of the first `stop` byte of `buf`, or its length.
fn find_byte(buf: &[u8], stop: u8) -> (r: usize)
    ensures
        r == run_before(buf@, stop),
        r <= buf@.len(),
{
    let len = buf.len();
    let mut m: usize = 0;
    while m < len && buf[m] != stop
        invariant
            m <= len == buf@.len(),
            forall|j: int| 0 <= j < m ==> #[trigger] buf@[j] != stop,
        decreases len - m,
    {
        m = m + 1;
    }
    proof {
        lemma_run_before_scan(buf@, stop, m as int);
    }
    m
}

proof fn lemma_rdb_records_none(buf: Seq<u8>, i: nat, m: nat)
    requires
        i <= m,
        rdb_records(buf, i) is None,
    ensures
        rdb_records(buf, m) is None,
    decreases m - i,
{
    if i < m {
        lemma_rdb_records_none(buf, i, (m - 1) as nat);
    }
}

/// Decodes a snapshot into its records that are still live at `now`
/// (milliseconds since the Unix epoch), in file order. `None` when the
/// snapshot is malformed or truncated.
#[verifier::rlimit(80)]
pub fn serialize(buf: &[u8], now: u64) -> (r: Option<Vec<(String, ExpiringValue)>>)
    ensures
        match rdb_snapshot(buf@, now) {
            Some(recs) => r matches Some(v) && v@.map_values(|e: (String, ExpiringValue)| entry_view(e)) == recs,
            None => r is None,
        },
{
    let len = buf.len();
    let m = find_byte(buf, 0xFB);
    if m == len {
        if find_byte(buf, 0xFF) < len {
            return Some(Vec::new());
        }
        return None;
    }
    let base = m + 1;
    let ghost body = buf@.subrange(base as int, len as int);
    let (size, o1) = match length_encode(&buf[base..len]) {
        Some(p) => p,
        None => return None,
    };
    proof {
        assert(buf@.subrange(base as int, len as int).subrange(o1 as int, body.len() as int) =~= buf@.subrange(base + o1, len as int));
    }
    let (_expiry_size, o2) = match length_encode(&buf[base + o1..len]) {
        Some(p) => p,
        None => return None,
    };
    let start = base + o1 + o2;
    let ghost records_buf = body.subrange(o1 + o2, body.len() as int);
    proof {
        assert(records_buf =~= buf@.subrange(start as int, len as int));
    }
    let mut out: Vec<(String, ExpiringValue)> = Vec::new();
    let ghost mut recs: Seq<RecordView> = seq![];
    let mut pos = start;
    let mut i: usize = 0;
    proof {
        reveal(Seq::filter);
        assert(out@.map_values(|e: (String, ExpiringValue)| entry_view(e)) =~= recs.filter(|r: RecordView| live_at(r, now)));
    }
    while i < size
        invariant
            len == buf@.len(),
            start <= pos <= len,
            i <= size,
            rdb_snapshot(buf@, now) == match rdb_records(records_buf, size as nat) {
                None => None,
                Some((recs, _)) => Some(recs.filter(|r: RecordView| live_at(r, now))),
            },
            records_buf == buf@.subrange(start as int, len as int),
            rdb_records(records_buf, i as nat) == Some((recs, (pos - start) as nat)),
            out@.map_values(|e: (String, ExpiringValue)| entry_view(e)) == recs.filter(|r: RecordView| live_at(r, now)),
        decreases size - i,
    {
        let tail = &buf[pos..len];
        proof {
            assert(tail@ =~= records_buf.subrange((pos - start) as int, records_buf.len() as int));
        }
        match serialize_kv(tail) {
            Some((key, value, n)) => {
                let ghost rv = (key@, value.value@, value.expires_at);
                let ghost prev = out@.map_values(|e: (String, ExpiringValue)| entry_view(e));
                let keep = match value.expires_at {
                    Some(t) => t >= now,
                    None => true,
                };
                if keep {
                    out.push((key, value));
                }
                proof {
                    reveal(Seq::filter);
                    let next = recs.push(rv);
                    assert(next.drop_last() =~= recs);
                    if keep {
                        assert(out@.map_values(|e: (String, ExpiringValue)| entry_view(e)) =~= prev.push(rv));
                    } else {
                        assert(out@.map_values(|e: (String, ExpiringValue)| entry_view(e)) =~= prev);
                    }
                    recs = next;
                }
                pos = pos + n;
                i = i + 1;
            },
            None => {
                proof {
                    lemma_rdb_records_none(records_buf, (i + 1) as nat, size as nat);
                }
                return None;
            },
        }
    }
    Some(out)
}

/// A record without expiry as it stands in a snapshot: value type `0`, then
/// key and value each behind a one-byte length (so both are shorter than 64
/// bytes).
pub open spec fn plain_record_wire(k: Seq<char>, v: Seq<char>) -> Seq<u8> {
    seq![0u8, encode_utf8(k).len() as u8] + encode_utf8(k) + seq![encode_utf8(v).len() as u8]
        + encode_utf8(v)
}

/// A record with an expiry: `0xFC`, eight little-endian bytes of
/// milliseconds, then the record as above.
pub open spec fn timed_record_wire(expiry: Seq<u8>, k: Seq<char>, v: Seq<char>) -> Seq<u8> {
    seq![0xFCu8] + expiry + plain_record_wire(k, v)
}

/// A snapshot with a header, a database of two records of which one expires,
/// and the end marker.
pub open spec fn two_record_snapshot(header: Seq<u8>, first: Seq<u8>, second: Seq<u8>) -> Seq<u8> {
    header + seq![0xFBu8, 2u8, 1u8] + first + second + seq![0xFFu8]
}

proof fn lemma_short_length(b: u8, rest: Seq<u8>)
    requires
        b < 64,
    ensures
        rdb_length(seq![b] + rest) == Some((b as nat, 1nat)),
{
    let s = seq![b] + rest;
    assert(s[0] == b);
}

proof fn lemma_plain_record(k: Seq<char>, v: Seq<char>, rest: Seq<u8>)
    requires
        encode_utf8(k).len() < 64,
        encode_utf8(v).len() < 64,
    ensures
        rdb_record(plain_record_wire(k, v) + rest) == Some(
            ((k, v, None::<u64>), plain_record_wire(k, v).len()),
        ),
{
    let ek = encode_utf8(k);
    let ev = encode_utf8(v);
    let buf = plain_record_wire(k, v) + rest;
    let kl = ek.len() as u8;
    let vl = ev.len() as u8;
    assert(buf[0] == 0);
    assert(buf.subrange(1, buf.len() as int) =~= seq![kl] + (ek + seq![vl] + ev + rest));
    lemma_short_length(kl, ek + seq![vl] + ev + rest);
    let kend = 2 + ek.len() as int;
    assert(buf.subrange(kend, buf.len() as int) =~= seq![vl] + (ev + rest));
    lemma_short_length(vl, ev + rest);
    assert(buf.subrange(2, kend) =~= ek);
    assert(buf.subrange(kend + 1, kend + 1 + ev.len()) =~= ev);
    encode_utf8_valid_utf8(k);
    encode_utf8_valid_utf8(v);
    encode_utf8_decode_utf8(k);
    encode_utf8_decode_utf8(v);
}

proof fn lemma_timed_record(expiry: Seq<u8>, k: Seq<char>, v: Seq<char>, rest: Seq<u8>)
    requires
        expiry.len() == 8,
        encode_utf8(k).len() < 64,
        encode_utf8(v).len() < 64,
    ensures
        rdb_record(timed_record_wire(expiry, k, v) + rest) == Some(
            ((k, v, Some(le_value(expiry) as u64)), timed_record_wire(expiry, k, v).len()),
        ),
{
    let ek = encode_utf8(k);
    let ev = encode_utf8(v);
    let buf = timed_record_wire(expiry, k, v) + rest;
    let kl = ek.len() as u8;
    let vl = ev.len() as u8;
    assert(buf[0] == 0xFC);
    assert(buf.subrange(1, 9) =~= expiry);
    assert(buf.subrange(10, buf.len() as int) =~= seq![kl] + (ek + seq![vl] + ev + rest));
    lemma_short_length(kl, ek + seq![vl] + ev + rest);
    let kend = 11 + ek.len() as int;
    assert(buf.subrange(kend, buf.len() as int) =~= seq![vl] + (ev + rest));
    lemma_short_length(vl, ev + rest);
    assert(buf.subrange(11, kend) =~= ek);
    assert(buf.subrange(kend + 1, kend + 1 + ev.len()) =~= ev);
    encode_utf8_valid_utf8(k);
    encode_utf8_valid_utf8(v);
    encode_utf8_decode_utf8(k);
    encode_utf8_decode_utf8(v);
}

#[verifier::rlimit(80)]
proof fn lemma_two_records(k1: Seq<char>, v1: Seq<char>, expiry: Seq<u8>, k2: Seq<char>, v2: Seq<char>)
    requires
        encode_utf8(k1).len() < 64,
        encode_utf8(v1).len() < 64,
        encode_utf8(k2).len() < 64,
        encode_utf8(v2).len() < 64,
        expiry.len() == 8,
    ensures
        rdb_records(
            plain_record_wire(k1, v1) + (timed_record_wire(expiry, k2, v2) + seq![0xFFu8]),
            2,
        ) matches Some((recs, _)) && recs == seq![
            (k1, v1, None::<u64>),
            (k2, v2, Some(le_value(expiry) as u64)),
        ],
{
    let r1 = plain_record_wire(k1, v1);
    let r2 = timed_record_wire(expiry, k2, v2);
    let recs_buf = r1 + (r2 + seq![0xFFu8]);
    lemma_plain_record(k1, v1, r2 + seq![0xFFu8]);
    assert(recs_buf.subrange(0, recs_buf.len() as int) =~= recs_buf);
    assert(recs_buf.subrange(r1.len() as int, recs_buf.len() as int) =~= r2 + seq![0xFFu8]);
    lemma_timed_record(expiry, k2, v2, seq![0xFFu8]);
    let first: RecordView = (k1, v1, None);
    let second: RecordView = (k2, v2, Some(le_value(expiry) as u64));
    assert(seq![first].push(second) =~= seq![first, second]);
    assert(Seq::<RecordView>::empty().push(first) =~= seq![first]);
    assert(rdb_records(recs_buf, 0) == Some((Seq::<RecordView>::empty(), 0nat)));
    assert(rdb_records(recs_buf, 1) == Some((seq![first], r1.len())));
}

proof fn lemma_keep_first(first: RecordView, second: RecordView, now: u64)
    requires
        live_at(first, now),
        !live_at(second, now),
    ensures
        seq![first, second].filter(|r: RecordView| live_at(r, now)) == seq![first],
{
    reveal(Seq::filter);
    let pred = |r: RecordView| live_at(r, now);
    let both = seq![first, second];
    let one = seq![first];
    let none = Seq::<RecordView>::empty();
    assert(both.drop_last() =~= one);
    assert(both.last() == second);
    assert(one.drop_last() =~= none);
    assert(one.last() == first);
    assert(none.filter(pred) == none);
    assert(one.filter(pred) == none.filter(pred).push(first));
    assert(none.push(first) =~= one);
    assert(both.filter(pred) == one.filter(pred));
}

/// A snapshot holding one record without expiry and one whose expiry lies
/// before `now` decodes to the first record alone.
#[verifier::rlimit(50)]
pub proof fn snapshot_drops_expired_record(
    header: Seq<u8>,
    k1: Seq<char>,
    v1: Seq<char>,
    expiry: Seq<u8>,
    k2: Seq<char>,
    v2: Seq<char>,
    now: u64,
)
    requires
        forall|i: int| 0 <= i < header.len() ==> #[trigger] header[i] != 0xFB,
        encode_utf8(k1).len() < 64,
        encode_utf8(v1).len() < 64,
        encode_utf8(k2).len() < 64,
        encode_utf8(v2).len() < 64,
        expiry.len() == 8,
        le_value(expiry) < now,
    ensures
        rdb_snapshot(
            two_record_snapshot(header, plain_record_wire(k1, v1), timed_record_wire(expiry, k2, v2)),
            now,
        ) == Some(seq![(k1, v1, None::<u64>)]),
{
    let r1 = plain_record_wire(k1, v1);
    let r2 = timed_record_wire(expiry, k2, v2);
    let tail = r1 + (r2 + seq![0xFFu8]);
    let buf = two_record_snapshot(header, r1, r2);
    let m = header.len() as int;
    assert(buf =~= header + (seq![0xFBu8] + (seq![2u8] + (seq![1u8] + tail))));
    assert(buf[m] == 0xFB);
    assert forall|j: int| 0 <= j < m implies #[trigger] buf[j] != 0xFB by {
        assert(buf[j] == header[j]);
    }
    lemma_run_before_scan(buf, 0xFB, m);
    let body = buf.subrange(m + 1, buf.len() as int);
    assert(body =~= seq![2u8] + (seq![1u8] + tail));
    lemma_short_length(2, seq![1u8] + tail);
    assert(body.subrange(1, body.len() as int) =~= seq![1u8] + tail);
    lemma_short_length(1, tail);
    assert(body.subrange(2, body.len() as int) =~= tail);
    lemma_two_records(k1, v1, expiry, k2, v2);
    lemma_keep_first((k1, v1, None), (k2, v2, Some(le_value(expiry) as u64)), now);
}

/// A snapshot of an empty keyspace: the `REDIS0011` header, metadata on the
/// server version, architecture, creation time, memory use and AOF base, the
/// end marker `0xFF` and an eight-byte checksum.
pub open spec fn empty_rdb_bytes() -> Seq<u8> {
    seq![
        0x52, 0x45, 0x44, 0x49, 0x53, 0x30, 0x30, 0x31, 0x31, 0xfa, 0x09, 0x72,
        0x65, 0x64, 0x69, 0x73, 0x2d, 0x76, 0x65, 0x72, 0x05, 0x37, 0x2e, 0x32,
        0x2e, 0x30, 0xfa, 0x0a, 0x72, 0x65, 0x64, 0x69, 0x73, 0x2d, 0x62, 0x69,
        0x74, 0x73, 0xc0, 0x40, 0xfa, 0x05, 0x63, 0x74, 0x69, 0x6d, 0x65, 0xc2,
        0x6d, 0x08, 0xbc, 0x65, 0xfa, 0x08, 0x75, 0x73, 0x65, 0x64, 0x2d, 0x6d,
        0x65, 0x6d, 0xc2, 0xb0, 0xc4, 0x10, 0x00, 0xfa, 0x08, 0x61, 0x6f, 0x66,
        0x2d, 0x62, 0x61, 0x73, 0x65, 0xc0, 0x00, 0xff, 0xf0, 0x6e, 0x3b, 0xfe,
        0xc0, 0xff, 0x5a, 0xa2,
    ]
}

/// The empty snapshot decodes to no records, whatever the time.
pub proof fn empty_rdb_holds_no_records(now: u64)
    ensures
        rdb_snapshot(empty_rdb_bytes(), now) == Some(Seq::<RecordView>::empty()),
{
    let b = empty_rdb_bytes();
    assert(b.len() == 88);
    assert forall|j: int| 0 <= j < 88 implies #[trigger] b[j] != 0xFB by {}
    lemma_run_before_scan(b, 0xFB, 88);
    assert forall|j: int| 0 <= j < 79 implies #[trigger] b[j] != 0xFF by {}
    assert(b[79] == 0xFF);
    lemma_run_before_scan(b, 0xFF, 79);
}

/// The snapshot that a master sends to a replica when it has nothing stored.
pub fn empty_rdb() -> (r: Vec<u8>)
    ensures
        r@ == empty_rdb_bytes(),
{
    let r: Vec<u8> = vec![
        0x52, 0x45, 0x44, 0x49, 0x53, 0x30, 0x30, 0x31, 0x31, 0xfa, 0x09, 0x72,
        0x65, 0x64, 0x69, 0x73, 0x2d, 0x76, 0x65, 0x72, 0x05, 0x37, 0x2e, 0x32,
        0x2e, 0x30, 0xfa, 0x0a, 0x72, 0x65, 0x64, 0x69, 0x73, 0x2d, 0x62, 0x69,
        0x74, 0x73, 0xc0, 0x40, 0xfa, 0x05, 0x63, 0x74, 0x69, 0x6d, 0x65, 0xc2,
        0x6d, 0x08, 0xbc, 0x65, 0xfa, 0x08, 0x75, 0x73, 0x65, 0x64, 0x2d, 0x6d,
        0x65, 0x6d, 0xc2, 0xb0, 0xc4, 0x10, 0x00, 0xfa, 0x08, 0x61, 0x6f, 0x66,
        0x2d, 0x62, 0x61, 0x73, 0x65, 0xc0, 0x00, 0xff, 0xf0, 0x6e, 0x3b, 0xfe,
        0xc0, 0xff, 0x5a, 0xa2,
    ];
    assert(r@ =~= empty_rdb_bytes());
    r
}

} // verus!
