//! The request/reply wire format: framing specs, decoders over byte buffers,
//! and encoders into `Bytes`.

use vstd::prelude::*;
use vstd::utf8::*;
use bytes::Bytes;
use crate::buffer::{bytes_content, freeze_vec, push_all};
use crate::text::{utf8_to_string, all_digits, decimal, digits_value, is_digit, lemma_decimal, push_decimal};

verus! {

broadcast use vstd::seq::group_seq_axioms;

/// Why a buffer does not start with a complete frame.
#[derive(Debug, Clone, Copy, PartialEq, Eq, Structural)]
pub enum RespError {
    /// The buffer ends inside a frame that may still be completed.
    Incomplete,
    /// The buffer cannot start a well-formed frame: wrong sigil, a bad
    /// length, a missing terminator or text that is not UTF-8.
    Malformed,
}

pub open spec fn crlf() -> Seq<u8> {
    seq![13u8, 10u8]
}

/// The number of leading ASCII digits of `s`.
pub open spec fn digit_run(s: Seq<u8>) -> nat
    decreases s.len(),
{
    if s.len() > 0 && is_digit(s[0]) {
        1 + digit_run(s.drop_first())
    } else {
        0
    }
}

/// The number of leading bytes of `s` that differ from `stop`.
pub open spec fn run_before(s: Seq<u8>, stop: u8) -> nat
    decreases s.len(),
{
    if s.len() > 0 && s[0] != stop {
        1 + run_before(s.drop_first(), stop)
    } else {
        0
    }
}

/// A length line: decimal digits then CRLF. On success, the value and the
/// number of bytes of the line.
pub open spec fn length_line(buf: Seq<u8>) -> Result<(nat, nat), RespError> {
    let k = digit_run(buf) as int;
    let v = digits_value(buf.subrange(0, k));
    if v > usize::MAX {
        Err(RespError::Malformed)
    } else if k == buf.len() || (buf[k] == 13 && k + 1 == buf.len()) {
        Err(RespError::Incomplete)
    } else if buf[k] == 13 && buf[k + 1] == 10 {
        Ok((v, (k + 2) as nat))
    } else {
        Err(RespError::Malformed)
    }
}

pub proof fn lemma_digit_run(s: Seq<u8>)
    ensures
        digit_run(s) <= s.len(),
        all_digits(s.subrange(0, digit_run(s) as int)),
        digit_run(s) < s.len() ==> !is_digit(s[digit_run(s) as int]),
    decreases s.len(),
{
    if s.len() > 0 && is_digit(s[0]) {
        lemma_digit_run(s.drop_first());
        let k = digit_run(s) as int;
        assert forall|i: int| 0 <= i < k implies is_digit(#[trigger] s.subrange(0, k)[i]) by {
            if i > 0 {
                assert(s.subrange(0, k)[i] == s.drop_first().subrange(0, k - 1)[i - 1]);
            }
        }
    }
}

/// The digits that a scan has passed over fix the digit run.
proof fn lemma_digit_run_scan(s: Seq<u8>, i: int)
    requires
        0 <= i <= s.len(),
        all_digits(s.subrange(0, i)),
    ensures
        digit_run(s) >= i,
        (i == s.len() || !is_digit(s[i])) ==> digit_run(s) == i,
{
    lemma_digit_run(s);
    let k = digit_run(s) as int;
    if k < i {
        assert(s.subrange(0, i)[k] == s[k]);
    }
    if k > i && i < s.len() {
        assert(s.subrange(0, k)[i] == s[i]);
    }
}

pub proof fn lemma_run_before(s: Seq<u8>, stop: u8)
    ensures
        run_before(s, stop) <= s.len(),
        forall|j: int| 0 <= j < run_before(s, stop) ==> #[trigger] s[j] != stop,
        run_before(s, stop) < s.len() ==> s[run_before(s, stop) as int] == stop,
    decreases s.len(),
{
    if s.len() > 0 && s[0] != stop {
        lemma_run_before(s.drop_first(), stop);
        assert forall|j: int| 0 <= j < run_before(s, stop) implies #[trigger] s[j] != stop by {
            if j > 0 {
                assert(s[j] == s.drop_first()[j - 1]);
            }
        }
    }
}

/// A scan that stopped at the first `stop` byte (or the end) found the run.
pub proof fn lemma_run_before_scan(s: Seq<u8>, stop: u8, i: int)
    requires
        0 <= i <= s.len(),
        forall|j: int| 0 <= j < i ==> #[trigger] s[j] != stop,
        i == s.len() || s[i] == stop,
    ensures
        run_before(s, stop) == i,
{
    lemma_run_before(s, stop);
    let k = run_before(s, stop) as int;
    if k < i {
        assert(s[k] != stop);
    }
    if k > i {
        assert(s[i] != stop);
    }
}

pub proof fn lemma_length_line(buf: Seq<u8>)
    ensures
        length_line(buf) matches Ok((v, c)) ==> 2 <= c <= buf.len() && v <= usize::MAX,
{
    lemma_digit_run(buf);
}

/// Decodes a length line at the start of `buf`: the value and the number of
/// bytes consumed.
pub fn parse_lenght(buf: &[u8]) -> (r: Result<(usize, usize), RespError>)
    ensures
        match length_line(buf@) {
            Ok((v, c)) => r == Ok::<(usize, usize), RespError>((v as usize, c as usize)),
            Err(e) => r == Err::<(usize, usize), RespError>(e),
        },
        r matches Ok((v, c)) ==> 2 <= c <= buf@.len(),
{
    proof {
        lemma_length_line(buf@);
    }
    let mut size: usize = 0;
    let mut i: usize = 0;
    while i < buf.len() && buf[i] >= 48 && buf[i] <= 57
        invariant
            i <= buf@.len(),
            all_digits(buf@.subrange(0, i as int)),
            size == digits_value(buf@.subrange(0, i as int)),
        decreases buf@.len() - i,
    {
        let d = (buf[i] - 48) as usize;
        proof {
            let next = buf@.subrange(0, i + 1);
            assert(next.drop_last() =~= buf@.subrange(0, i as int));
            assert(all_digits(next));
        }
        if size > (usize::MAX - d) / 10 {
            proof {
                assert(size * 10 + d > usize::MAX) by (nonlinear_arith)
                    requires
                        size > (usize::MAX - d) / 10,
                        d <= 9,
                ;
                lemma_digit_run_scan(buf@, i + 1);
                lemma_digit_run(buf@);
                let k = digit_run(buf@) as int;
                crate::text::lemma_digits_value_grows(buf@.subrange(0, k), (i + 1) as nat);
                assert(buf@.subrange(0, k).subrange(0, i + 1) =~= buf@.subrange(0, i + 1));
            }
            return Err(RespError::Malformed);
        }
        size = size * 10 + d;
        i = i + 1;
    }
    proof {
        lemma_digit_run_scan(buf@, i as int);
    }
    if i == buf.len() {
        return Err(RespError::Incomplete);
    }
    if buf[i] != 13 {
        return Err(RespError::Malformed);
    }
    if i + 1 == buf.len() {
        return Err(RespError::Incomplete);
    }
    if buf[i + 1] != 10 {
        return Err(RespError::Malformed);
    }
    Ok((size, i + 2))
}

/// A frame whose payload must be UTF-8 text.
pub open spec fn text_frame(payload: Seq<u8>, consumed: nat) -> Result<(Seq<char>, nat), RespError> {
    if valid_utf8(payload) {
        Ok((decode_utf8(payload), consumed))
    } else {
        Err(RespError::Malformed)
    }
}

/// A simple string: `+`, text without a carriage return, CRLF.
pub open spec fn simple_frame(buf: Seq<u8>) -> Result<(Seq<char>, nat), RespError> {
    if buf.len() == 0 {
        Err(RespError::Incomplete)
    } else if buf[0] != 43 {
        Err(RespError::Malformed)
    } else {
        let k = run_before(buf.drop_first(), 13) as int;
        if k + 2 >= buf.len() {
            Err(RespError::Incomplete)
        } else if buf[k + 2] != 10 {
            Err(RespError::Malformed)
        } else {
            text_frame(buf.subrange(1, k + 1), (k + 3) as nat)
        }
    }
}

/// A bulk string: `$`, a length line, that many bytes of text, CRLF.
pub open spec fn bulk_frame(buf: Seq<u8>) -> Result<(Seq<char>, nat), RespError> {
    if buf.len() == 0 {
        Err(RespError::Incomplete)
    } else if buf[0] != 36 {
        Err(RespError::Malformed)
    } else {
        match length_line(buf.drop_first()) {
            Err(e) => Err(e),
            Ok((n, c)) => {
                let start = 1 + c as int;
                let end = start + n as int;
                if buf.len() < end + 2 {
                    Err(RespError::Incomplete)
                } else if buf[end] != 13 || buf[end + 1] != 10 {
                    Err(RespError::Malformed)
                } else {
                    text_frame(buf.subrange(start, end), (end + 2) as nat)
                }
            },
        }
    }
}

/// `n` bulk strings one after another.
pub open spec fn bulks_frame(buf: Seq<u8>, n: nat) -> Result<(Seq<Seq<char>>, nat), RespError>
    decreases n,
{
    if n == 0 {
        Ok((seq![], 0))
    } else {
        match bulks_frame(buf, (n - 1) as nat) {
            Err(e) => Err(e),
            Ok((items, c)) => match bulk_frame(buf.subrange(c as int, buf.len() as int)) {
                Err(e) => Err(e),
                Ok((x, d)) => Ok((items.push(x), c + d)),
            },
        }
    }
}

/// Once a run of bulk strings fails, every longer run fails the same way.
proof fn lemma_bulks_frame_error(buf: Seq<u8>, i: nat, m: nat)
    requires
        i <= m,
        bulks_frame(buf, i) is Err,
    ensures
        bulks_frame(buf, m) == bulks_frame(buf, i),
    decreases m - i,
{
    if i < m {
        lemma_bulks_frame_error(buf, i, (m - 1) as nat);
    }
}

/// An array of bulk strings: `*`, a count line, that many bulk strings.
pub open spec fn array_frame(buf: Seq<u8>) -> Result<(Seq<Seq<char>>, nat), RespError> {
    if buf.len() == 0 {
        Err(RespError::Incomplete)
    } else if buf[0] != 42 {
        Err(RespError::Malformed)
    } else {
        match length_line(buf.drop_first()) {
            Err(e) => Err(e),
            Ok((n, c)) => match bulks_frame(buf.subrange(1 + c as int, buf.len() as int), n) {
                Err(e) => Err(e),
                Ok((items, d)) => Ok((items, (1 + c + d) as nat)),
            },
        }
    }
}

/// A snapshot transfer: `$`, a length line, that many raw bytes and no
/// terminator.
pub open spec fn payload_frame(buf: Seq<u8>) -> Result<(Seq<u8>, nat), RespError> {
    if buf.len() == 0 {
        Err(RespError::Incomplete)
    } else if buf[0] != 36 {
        Err(RespError::Malformed)
    } else {
        match length_line(buf.drop_first()) {
            Err(e) => Err(e),
            Ok((n, c)) => {
                let start = 1 + c as int;
                if buf.len() < start + n {
                    Err(RespError::Incomplete)
                } else {
                    Ok((buf.subrange(start, start + n), (start + n) as nat))
                }
            },
        }
    }
}

/// A copy of `s` as a vector.
fn copy_bytes(s: &[u8]) -> (r: Vec<u8>)
    ensures
        r@ == s@,
{
    let mut r: Vec<u8> = Vec::new();
    push_all(&mut r, s);
    r
}

/// Text from `payload`, or `Malformed` when it is not UTF-8.
fn text_from(payload: &[u8], consumed: usize) -> (r: Result<(String, usize), RespError>)
    ensures
        match text_frame(payload@, consumed as nat) {
            Ok((v, c)) => r matches Ok((s, n)) && s@ == v && n == c,
            Err(e) => r == Err::<(String, usize), RespError>(e),
        },
{
    match utf8_to_string(copy_bytes(payload)) {
        Some(s) => Ok((s, consumed)),
        None => Err(RespError::Malformed),
    }
}

/// Decodes a simple string at the start of `buf`.
pub fn parse_simple_string(buf: &[u8]) -> (r: Result<(String, usize), RespError>)
    ensures
        match simple_frame(buf@) {
            Ok((v, c)) => r matches Ok((s, n)) && s@ == v && n == c,
            Err(e) => r == Err::<(String, usize), RespError>(e),
        },
{
    if buf.len() == 0 {
        return Err(RespError::Incomplete);
    }
    if buf[0] != 43 {
        return Err(RespError::Malformed);
    }
    let ghost body = buf@.drop_first();
    let mut i: usize = 1;
    while i < buf.len() && buf[i] != 13
        invariant
            1 <= i <= buf@.len(),
            body == buf@.drop_first(),
            forall|j: int| 1 <= j < i ==> #[trigger] buf@[j] != 13,
        decreases buf@.len() - i,
    {
        i = i + 1;
    }
    proof {
        lemma_run_before_scan(body, 13, i - 1);
    }
    if i >= buf.len() - 1 {
        return Err(RespError::Incomplete);
    }
    if buf[i + 1] != 10 {
        return Err(RespError::Malformed);
    }
    text_from(&buf[1..i], i + 2)
}

/// Reads the `$` and the length line that open a bulk string or a snapshot
/// transfer: the announced size and where its bytes start.
fn bulk_header(buf: &[u8]) -> (r: Result<(usize, usize), RespError>)
    ensures
        buf@.len() == 0 ==> r == Err::<(usize, usize), RespError>(RespError::Incomplete),
        buf@.len() > 0 && buf@[0] != 36 ==> r == Err::<(usize, usize), RespError>(
            RespError::Malformed,
        ),
        buf@.len() > 0 && buf@[0] == 36 ==> match length_line(buf@.drop_first()) {
            Ok((n, c)) => r == Ok::<(usize, usize), RespError>((n as usize, (1 + c) as usize)),
            Err(e) => r == Err::<(usize, usize), RespError>(e),
        },
        r matches Ok((n, start)) ==> start <= buf@.len(),
{
    if buf.len() == 0 {
        return Err(RespError::Incomplete);
    }
    if buf[0] != 36 {
        return Err(RespError::Malformed);
    }
    let rest = &buf[1..buf.len()];
    proof {
        assert(rest@ =~= buf@.drop_first());
        lemma_length_line(buf@.drop_first());
    }
    match parse_lenght(rest) {
        Ok((n, c)) => Ok((n, 1 + c)),
        Err(e) => Err(e),
    }
}

/// Decodes a bulk string at the start of `buf`.
pub fn parse_bulk_string(buf: &[u8]) -> (r: Result<(String, usize), RespError>)
    ensures
        match bulk_frame(buf@) {
            Ok((v, c)) => r matches Ok((s, n)) && s@ == v && n == c,
            Err(e) => r == Err::<(String, usize), RespError>(e),
        },
{
    proof {
        lemma_length_line(buf@.drop_first());
    }
    let (n, start) = match bulk_header(buf) {
        Ok(p) => p,
        Err(e) => return Err(e),
    };
    if buf.len() - start < n || buf.len() - start - n < 2 {
        return Err(RespError::Incomplete);
    }
    let end = start + n;
    if buf[end] != 13 || buf[end + 1] != 10 {
        return Err(RespError::Malformed);
    }
    text_from(&buf[start..end], end + 2)
}

/// Decodes an array of bulk strings at the start of `buf`: the elements and
/// the number of bytes consumed. This is how every request arrives.
pub fn parse_array(buf: &[u8]) -> (r: Result<(Vec<String>, usize), RespError>)
    ensures
        match array_frame(buf@) {
            Ok((v, c)) => r matches Ok((items, n)) && items@.map_values(|s: String| s@) == v
                && n == c,
            Err(e) => r == Err::<(Vec<String>, usize), RespError>(e),
        },
        r matches Ok((items, n)) ==> n <= buf@.len(),
{
    if buf.len() == 0 {
        return Err(RespError::Incomplete);
    }
    if buf[0] != 42 {
        return Err(RespError::Malformed);
    }
    let rest = &buf[1..buf.len()];
    proof {
        assert(rest@ =~= buf@.drop_first());
    }
    proof {
        lemma_length_line(buf@.drop_first());
    }
    let (count, c) = match parse_lenght(rest) {
        Ok(p) => p,
        Err(e) => return Err(e),
    };
    let start = 1 + c;
    let ghost body = buf@.subrange(start as int, buf@.len() as int);
    let mut array: Vec<String> = Vec::new();
    let mut pos = start;
    let mut i: usize = 0;
    proof {
        assert(array@.map_values(|s: String| s@) =~= Seq::<Seq<char>>::empty());
    }
    while i < count
        invariant
            buf@.len() > 0 && buf@[0] == 42,
            length_line(buf@.drop_first()) == Ok::<(nat, nat), RespError>((count as nat, c as nat)),
            start == 1 + c,
            start <= pos <= buf@.len(),
            i <= count,
            body == buf@.subrange(start as int, buf@.len() as int),
            bulks_frame(body, i as nat) == Ok::<(Seq<Seq<char>>, nat), RespError>(
                (array@.map_values(|s: String| s@), (pos - start) as nat),
            ),
        decreases count - i,
    {
        let tail = &buf[pos..buf.len()];
        proof {
            assert(tail@ =~= body.subrange((pos - start) as int, body.len() as int));
        }
        match parse_bulk_string(tail) {
            Ok((s, n)) => {
                let ghost prev = array@.map_values(|s: String| s@);
                let ghost sv = s@;
                array.push(s);
                pos = pos + n;
                i = i + 1;
                proof {
                    assert(array@.map_values(|s: String| s@) =~= prev.push(sv));
                }
            },
            Err(e) => {
                proof {
                    assert(bulk_frame(tail@) == Err::<(Seq<char>, nat), RespError>(e));
                    assert(bulks_frame(body, (i + 1) as nat) == Err::<(Seq<Seq<char>>, nat), RespError>(e));
                    lemma_bulks_frame_error(body, (i + 1) as nat, count as nat);
                }
                return Err(e);
            },
        }
    }
    Ok((array, pos))
}

/// Decodes a snapshot transfer at the start of `buf`: the snapshot bytes and
/// the number of bytes consumed.
pub fn receive_rdb_file(buf: &[u8]) -> (r: Result<(Vec<u8>, usize), RespError>)
    ensures
        match payload_frame(buf@) {
            Ok((v, c)) => r matches Ok((data, n)) && data@ == v && n == c,
            Err(e) => r == Err::<(Vec<u8>, usize), RespError>(e),
        },
{
    proof {
        lemma_length_line(buf@.drop_first());
    }
    let (n, start) = match bulk_header(buf) {
        Ok(p) => p,
        Err(e) => return Err(e),
    };
    if buf.len() - start < n {
        return Err(RespError::Incomplete);
    }
    let end = start + n;
    Ok((copy_bytes(&buf[start..end]), end))
}

/// `+<text>\r\n`
pub open spec fn simple_wire(s: Seq<char>) -> Seq<u8> {
    seq![43u8] + encode_utf8(s) + crlf()
}

/// `$<len>\r\n<bytes>\r\n`
pub open spec fn bulk_wire(b: Seq<u8>) -> Seq<u8> {
    seq![36u8] + decimal(b.len()) + crlf() + b + crlf()
}

/// Bulk strings one after another.
pub open spec fn bulks_wire(items: Seq<Seq<u8>>) -> Seq<u8>
    decreases items.len(),
{
    if items.len() == 0 {
        seq![]
    } else {
        bulks_wire(items.drop_last()) + bulk_wire(items.last())
    }
}

/// `*<count>\r\n` and each item as a bulk string.
pub open spec fn array_wire(items: Seq<Seq<u8>>) -> Seq<u8> {
    seq![42u8] + decimal(items.len()) + crlf() + bulks_wire(items)
}

/// The UTF-8 bytes of each text.
pub open spec fn utf8_all(items: Seq<Seq<char>>) -> Seq<Seq<u8>> {
    items.map_values(|t: Seq<char>| encode_utf8(t))
}

/// The texts that a slice of string slices holds.
pub open spec fn str_views(items: Seq<&str>) -> Seq<Seq<char>> {
    items.map_values(|t: &str| t@)
}

/// `:<n>\r\n`
pub open spec fn integer_wire(n: nat) -> Seq<u8> {
    seq![58u8] + decimal(n) + crlf()
}

/// `$-1\r\n`
pub open spec fn null_bulk_wire() -> Seq<u8> {
    seq![36u8, 45u8, 49u8, 13u8, 10u8]
}

/// `-ERR <msg>\r\n`
pub open spec fn error_wire(msg: Seq<char>) -> Seq<u8> {
    seq![45u8, 69u8, 82u8, 82u8, 32u8] + encode_utf8(msg) + crlf()
}

/// `$<len>\r\n<bytes>`, with no terminator.
pub open spec fn rdb_wire(data: Seq<u8>) -> Seq<u8> {
    seq![36u8] + decimal(data.len()) + crlf() + data
}

fn push_crlf(out: &mut Vec<u8>)
    ensures
        final(out)@ == old(out)@ + crlf(),
{
    out.push(13);
    out.push(10);
    assert(final(out)@ =~= old(out)@ + crlf());
}

/// Appends `b` framed as a bulk string.
pub fn push_bulk(out: &mut Vec<u8>, b: &[u8])
    ensures
        final(out)@ == old(out)@ + bulk_wire(b@),
{
    let ghost start = out@;
    out.push(36);
    push_decimal(out, b.len() as u64);
    push_crlf(out);
    push_all(out, b);
    push_crlf(out);
    assert(out@ =~= start + bulk_wire(b@));
}

/// Appends the items framed as an array of bulk strings.
pub fn push_array(out: &mut Vec<u8>, array: &[&str])
    ensures
        final(out)@ == old(out)@ + array_wire(utf8_all(str_views(array@))),
{
    let ghost start = out@;
    let ghost items = utf8_all(str_views(array@));
    out.push(42);
    push_decimal(out, array.len() as u64);
    push_crlf(out);
    let ghost head = out@;
    let mut i: usize = 0;
    proof {
        assert(items.subrange(0, 0) =~= Seq::<Seq<u8>>::empty());
        assert(out@ =~= head + bulks_wire(items.subrange(0, 0)));
    }
    while i < array.len()
        invariant
            i <= array@.len(),
            items == utf8_all(str_views(array@)),
            items.len() == array@.len(),
            head == start + seq![42u8] + decimal(array@.len()) + crlf(),
            out@ == head + bulks_wire(items.subrange(0, i as int)),
        decreases array@.len() - i,
    {
        let t: &str = array[i];
        push_bulk(out, t.as_bytes());
        proof {
            let next = items.subrange(0, i + 1);
            assert(next.drop_last() =~= items.subrange(0, i as int));
            assert(next.last() == encode_utf8(t@));
        }
        i = i + 1;
        proof {
            assert(out@ =~= head + bulks_wire(items.subrange(0, i as int)));
        }
    }
    proof {
        assert(items.subrange(0, i as int) =~= items);
    }
    assert(out@ =~= start + array_wire(items));
}

/// Appends `+<s>\r\n`.
pub fn push_simple(out: &mut Vec<u8>, s: &str)
    ensures
        final(out)@ == old(out)@ + simple_wire(s@),
{
    let ghost start = out@;
    out.push(43);
    push_all(out, s.as_bytes());
    push_crlf(out);
    assert(out@ =~= start + simple_wire(s@));
}

/// `+<s>\r\n`
pub fn encoding_simple_string(s: &str) -> (r: Bytes)
    ensures
        bytes_content(r) == simple_wire(s@),
{
    let mut out: Vec<u8> = Vec::new();
    push_simple(&mut out, s);
    assert(out@ =~= simple_wire(s@));
    freeze_vec(out)
}

/// An array whose elements are the given strings, each as a bulk string.
pub fn encoding_string_array(items: &Vec<String>) -> (r: Bytes)
    ensures
        bytes_content(r) == array_wire(utf8_all(crate::store::texts(items@))),
{
    let mut refs: Vec<&str> = Vec::new();
    let mut i: usize = 0;
    while i < items.len()
        invariant
            i <= items@.len(),
            str_views(refs@) == crate::store::texts(items@).subrange(0, i as int),
        decreases items@.len() - i,
    {
        let ghost prev = str_views(refs@);
        refs.push(items[i].as_str());
        proof {
            assert(str_views(refs@) =~= prev.push(items@[i as int]@));
            assert(crate::store::texts(items@).subrange(0, i + 1) =~= crate::store::texts(items@).subrange(0, i as int).push(items@[i as int]@));
        }
        i = i + 1;
    }
    proof {
        assert(crate::store::texts(items@).subrange(0, i as int) =~= crate::store::texts(items@));
    }
    encoding_array(refs.as_slice())
}

/// `$<len>\r\n<s>\r\n`
pub fn encoding_bulk_string(s: &str) -> (r: Bytes)
    ensures
        bytes_content(r) == bulk_wire(encode_utf8(s@)),
{
    let mut out: Vec<u8> = Vec::new();
    push_bulk(&mut out, s.as_bytes());
    assert(out@ =~= bulk_wire(encode_utf8(s@)));
    freeze_vec(out)
}

/// The same framing as `encoding_bulk_string`.
pub fn bulk_string(s: &str) -> (r: Bytes)
    ensures
        bytes_content(r) == bulk_wire(encode_utf8(s@)),
{
    encoding_bulk_string(s)
}

/// An array whose elements are the given texts, each as a bulk string.
pub fn encoding_array(array: &[&str]) -> (r: Bytes)
    ensures
        bytes_content(r) == array_wire(utf8_all(str_views(array@))),
{
    let mut out: Vec<u8> = Vec::new();
    push_array(&mut out, array);
    assert(out@ =~= array_wire(utf8_all(str_views(array@))));
    freeze_vec(out)
}

/// `:<n>\r\n`
pub fn encoding_integer(n: u64) -> (r: Bytes)
    ensures
        bytes_content(r) == integer_wire(n as nat),
{
    let mut out: Vec<u8> = Vec::new();
    out.push(58);
    push_decimal(&mut out, n);
    push_crlf(&mut out);
    assert(out@ =~= integer_wire(n as nat));
    freeze_vec(out)
}

/// `$-1\r\n`, the reply for a missing value.
pub fn null_bulk_string() -> (r: Bytes)
    ensures
        bytes_content(r) == null_bulk_wire(),
{
    let mut out: Vec<u8> = Vec::new();
    out.push(36);
    out.push(45);
    out.push(49);
    push_crlf(&mut out);
    assert(out@ =~= null_bulk_wire());
    freeze_vec(out)
}

/// `-ERR <msg>\r\n`
pub fn encoding_error(msg: &str) -> (r: Bytes)
    ensures
        bytes_content(r) == error_wire(msg@),
{
    let mut out: Vec<u8> = Vec::new();
    out.push(45);
    out.push(69);
    out.push(82);
    out.push(82);
    out.push(32);
    push_all(&mut out, msg.as_bytes());
    push_crlf(&mut out);
    assert(out@ =~= error_wire(msg@));
    freeze_vec(out)
}

/// Appends a snapshot framed for transfer: `$<len>\r\n<bytes>`.
pub fn push_rdb(out: &mut Vec<u8>, data: &[u8])
    ensures
        final(out)@ == old(out)@ + rdb_wire(data@),
{
    let ghost start = out@;
    out.push(36);
    push_decimal(out, data.len() as u64);
    push_crlf(out);
    push_all(out, data);
    assert(out@ =~= start + rdb_wire(data@));
}

/// A snapshot framed for transfer: `$<len>\r\n<bytes>`, no terminator.
pub fn rdb_file(data: &[u8]) -> (r: Bytes)
    ensures
        bytes_content(r) == rdb_wire(data@),
{
    let mut out: Vec<u8> = Vec::new();
    push_rdb(&mut out, data);
    freeze_vec(out)
}

/// A canonical numeral followed by CRLF reads back as its value.
pub proof fn lemma_length_line_decimal(n: nat, rest: Seq<u8>)
    requires
        n <= usize::MAX,
    ensures
        length_line(decimal(n) + crlf() + rest) == Ok::<(nat, nat), RespError>(
            (n, decimal(n).len() + 2),
        ),
{
    let d = decimal(n);
    let s = d + crlf() + rest;
    lemma_decimal(n);
    assert(s.subrange(0, d.len() as int) =~= d);
    assert(s[d.len() as int] == 13);
    lemma_digit_run_scan(s, d.len() as int);
    assert(s[d.len() as int + 1] == 10);
}

/// An encoded bulk string decodes to its text, whatever follows it.
pub proof fn lemma_bulk_round_trip(t: Seq<char>, rest: Seq<u8>)
    requires
        encode_utf8(t).len() <= usize::MAX,
    ensures
        bulk_frame(bulk_wire(encode_utf8(t)) + rest) == Ok::<(Seq<char>, nat), RespError>(
            (t, bulk_wire(encode_utf8(t)).len()),
        ),
{
    let b = encode_utf8(t);
    let d = decimal(b.len());
    let buf = bulk_wire(b) + rest;
    assert(buf.drop_first() =~= d + crlf() + (b + crlf() + rest));
    lemma_length_line_decimal(b.len(), b + crlf() + rest);
    let start = 1 + d.len() + 2;
    let end = start + b.len();
    assert(buf.subrange(start as int, end as int) =~= b);
    assert(buf[end as int] == 13);
    assert(buf[end as int + 1] == 10);
    encode_utf8_valid_utf8(t);
    encode_utf8_decode_utf8(t);
}

/// Encoded bulk strings one after another decode to their texts.
pub proof fn lemma_bulks_round_trip(items: Seq<Seq<char>>, rest: Seq<u8>)
    requires
        forall|i: int| 0 <= i < items.len() ==> encode_utf8(#[trigger] items[i]).len() <= usize::MAX,
    ensures
        bulks_frame(bulks_wire(utf8_all(items)) + rest, items.len()) == Ok::<(Seq<Seq<char>>, nat), RespError>(
            (items, bulks_wire(utf8_all(items)).len()),
        ),
    decreases items.len(),
{
    if items.len() > 0 {
        let init = items.drop_last();
        let x = items.last();
        assert(utf8_all(items).drop_last() =~= utf8_all(init));
        let w = bulks_wire(utf8_all(init));
        let tail = bulk_wire(encode_utf8(x)) + rest;
        let buf = bulks_wire(utf8_all(items)) + rest;
        assert(buf =~= w + tail);
        assert forall|i: int| 0 <= i < init.len() implies encode_utf8(#[trigger] init[i]).len() <= usize::MAX by {
            assert(init[i] == items[i]);
        }
        lemma_bulks_round_trip(init, tail);
        assert(buf.subrange(w.len() as int, buf.len() as int) =~= tail);
        lemma_bulk_round_trip(x, rest);
        assert(init.push(x) =~= items);
    } else {
        assert(items =~= Seq::<Seq<char>>::empty());
    }
}

/// Encoding texts as an array and decoding the result gives back the texts,
/// and the decoder consumes exactly the encoding, whatever follows it.
pub proof fn lemma_array_round_trip(items: Seq<Seq<char>>, rest: Seq<u8>)
    requires
        items.len() <= usize::MAX,
        forall|i: int| 0 <= i < items.len() ==> encode_utf8(#[trigger] items[i]).len() <= usize::MAX,
    ensures
        array_frame(array_wire(utf8_all(items)) + rest) == Ok::<(Seq<Seq<char>>, nat), RespError>(
            (items, array_wire(utf8_all(items)).len()),
        ),
{
    let w = bulks_wire(utf8_all(items));
    let d = decimal(items.len());
    let buf = array_wire(utf8_all(items)) + rest;
    assert(buf.drop_first() =~= d + crlf() + (w + rest));
    lemma_length_line_decimal(items.len(), w + rest);
    assert(buf.subrange(1 + d.len() as int + 2, buf.len() as int) =~= w + rest);
    lemma_bulks_round_trip(items, rest);
}

proof fn lemma_marked_byte(x: u8)
    by (bit_vector)
    ensures
        (0x80u8 | x) != 13u8,
        (0xC0u8 | x) != 13u8,
        (0xE0u8 | x) != 13u8,
        (0xF0u8 | x) != 13u8,
{
}

proof fn lemma_ascii_byte(c: u32)
    by (bit_vector)
    requires
        c <= 0x7f,
        c != 13u32,
    ensures
        ((c & 0x7F) as u8) != 13u8,
{
}

/// Text without a carriage return encodes to bytes without one.
pub proof fn lemma_utf8_without_cr(t: Seq<char>)
    requires
        forall|i: int| 0 <= i < t.len() ==> #[trigger] t[i] != '\r',
    ensures
        forall|j: int| 0 <= j < encode_utf8(t).len() ==> #[trigger] encode_utf8(t)[j] != 13,
    decreases t.len(),
{
    if t.len() > 0 {
        let c = t[0] as u32;
        let rest = t.drop_first();
        lemma_utf8_without_cr(rest);
        let head = encode_scalar(c);
        if has_width_1_encoding(c) {
            assert(t[0] != '\r');
            if c == 13u32 {
                char_u32_cast(t[0], c);
                char_u32_cast('\r', 13u32);
            }
            assert(c != 13u32);
            lemma_ascii_byte(c);
        } else {
            lemma_marked_byte(((c >> 6) & 0x1F) as u8);
            lemma_marked_byte(((c >> 12) & 0x0F) as u8);
            lemma_marked_byte(((c >> 18) & 0x7) as u8);
            lemma_marked_byte((c & 0x3F) as u8);
            lemma_marked_byte(((c >> 6) & 0x3F) as u8);
            lemma_marked_byte(((c >> 12) & 0x3F) as u8);
        }
        assert forall|j: int| 0 <= j < head.len() implies #[trigger] head[j] != 13 by {}
        let e = encode_utf8(t);
        assert(e == head + encode_utf8(rest));
        assert forall|j: int| 0 <= j < e.len() implies #[trigger] e[j] != 13 by {
            if j >= head.len() {
                assert(e[j] == encode_utf8(rest)[j - head.len()]);
            }
        }
    }
}

/// An encoded simple string whose text holds no carriage return decodes to
/// that text, whatever follows it.
pub proof fn simple_round_trip(t: Seq<char>, rest: Seq<u8>)
    requires
        forall|i: int| 0 <= i < t.len() ==> #[trigger] t[i] != '\r',
    ensures
        simple_frame(simple_wire(t) + rest) == Ok::<(Seq<char>, nat), RespError>(
            (t, simple_wire(t).len()),
        ),
{
    let b = encode_utf8(t);
    let buf = simple_wire(t) + rest;
    lemma_utf8_without_cr(t);
    let body = buf.drop_first();
    assert(body =~= b + crlf() + rest);
    assert forall|j: int| 0 <= j < b.len() implies #[trigger] body[j] != 13 by {
        assert(body[j] == b[j]);
    }
    assert(body[b.len() as int] == 13);
    lemma_run_before_scan(body, 13, b.len() as int);
    assert(buf[b.len() as int + 2] == 10);
    assert(buf.subrange(1, b.len() as int + 1) =~= b);
    encode_utf8_valid_utf8(t);
    encode_utf8_decode_utf8(t);
}

} // verus!
