//! The binary form of a transformed sequence: an 8-byte header with the place
//! of the marker, then one record of three bytes for each run of equal bytes.

use crate::bwtstring::BWTStr;
use crate::error::BwtError;
use vstd::arithmetic::div_mod::lemma_div_denominator;
use vstd::prelude::*;

verus! {

/// The longest run that one record holds.
pub const MAX_RUN: u16 = 65535;

/// The eight bytes of `x`, the least significant first.
pub open spec fn header_bytes(x: int) -> Seq<u8> {
    seq![
        (x % 256) as u8,
        (x / 0x100 % 256) as u8,
        (x / 0x1_0000 % 256) as u8,
        (x / 0x100_0000 % 256) as u8,
        (x / 0x1_0000_0000 % 256) as u8,
        (x / 0x100_0000_0000 % 256) as u8,
        (x / 0x1_0000_0000_0000 % 256) as u8,
        (x / 0x100_0000_0000_0000 % 256) as u8,
    ]
}

/// The number whose eight bytes, the least significant first, begin `h`.
pub open spec fn header_value(h: Seq<u8>) -> int {
    h[0] + 0x100 * h[1] + 0x1_0000 * h[2] + 0x100_0000 * h[3] + 0x1_0000_0000 * h[4]
        + 0x100_0000_0000 * h[5] + 0x1_0000_0000_0000 * h[6] + 0x100_0000_0000_0000 * h[7]
}

/// One record: the byte, then the length of its run in two bytes, the lower
/// first.
pub open spec fn record(b: u8, n: int) -> Seq<u8> {
    seq![b, (n % 256) as u8, (n / 256) as u8]
}

/// The records of a run of `n` times `b`: a full record for every 65535
/// of them, then one for what is left, which may be none.
pub open spec fn run_records(b: u8, n: nat) -> Seq<u8>
    decreases n,
{
    if n >= 65535 {
        record(b, 65535) + run_records(b, (n - 65535) as nat)
    } else {
        record(b, n as int)
    }
}

/// How many bytes equal to `b` follow one another in `s` from position `i` on.
pub open spec fn run_rest(s: Seq<u8>, i: int, b: u8) -> nat
    decreases s.len() - i,
{
    if 0 <= i < s.len() && s[i] == b {
        1 + run_rest(s, i + 1, b)
    } else {
        0
    }
}

/// The records of `s` from position `i` on, one maximal run after the other.
pub open spec fn rle_runs(s: Seq<u8>, i: int) -> Seq<u8>
    decreases s.len() - i,
    via rle_runs_decreases
{
    if 0 <= i < s.len() {
        let n = 1 + run_rest(s, i + 1, s[i]);
        run_records(s[i], n) + rle_runs(s, i + n)
    } else {
        Seq::empty()
    }
}

#[via_fn]
proof fn rle_runs_decreases(s: Seq<u8>, i: int) {
    if 0 <= i < s.len() {
        lemma_run_rest_bounded(s, i + 1, s[i]);
    }
}

/// A run ends within the sequence.
pub proof fn lemma_run_rest_bounded(s: Seq<u8>, i: int, b: u8)
    requires
        0 <= i <= s.len(),
    ensures
        i + run_rest(s, i, b) <= s.len(),
    decreases s.len() - i,
{
    if i < s.len() && s[i] == b {
        lemma_run_rest_bounded(s, i + 1, b);
    }
}

/// The binary form of the bytes `payload` with the marker at `at`. The marker
/// ends a run: the bytes before it and those after it are encoded apart.
pub open spec fn rle_encoding(payload: Seq<u8>, at: int) -> Seq<u8> {
    header_bytes(at) + rle_runs(payload.subrange(0, at), 0) + rle_runs(
        payload.subrange(at, payload.len() as int),
        0,
    )
}

/// `n` times the byte `b`.
pub open spec fn repeat(b: u8, n: int) -> Seq<u8> {
    Seq::new(n as nat, |j: int| b)
}

/// The bytes that the records in `body` stand for. Bytes behind the last whole
/// record count for nothing.
pub open spec fn expand(body: Seq<u8>) -> Seq<u8>
    decreases body.len(),
{
    if body.len() < 3 {
        Seq::empty()
    } else {
        repeat(body[0], body[1] + 256 * body[2]) + expand(body.skip(3))
    }
}

/// What a stream decodes to: the bytes and the place of the marker among
/// them. `None` for a stream that is cut short in its header or in a record,
/// whose marker lies behind the end of the bytes, or whose bytes are too many
/// to count.
pub open spec fn rle_decoding(stream: Seq<u8>) -> Option<(Seq<u8>, int)> {
    if stream.len() < 8 || (stream.len() - 8) % 3 != 0 {
        None
    } else {
        let at = header_value(stream.take(8));
        let data = expand(stream.skip(8));
        if at > data.len() || data.len() >= usize::MAX {
            None
        } else {
            Some((data, at))
        }
    }
}

/// Appends to `out` the records of `bytes[from..to]`.
fn write_runs(bytes: &Vec<u8>, from: usize, to: usize, out: &mut Vec<u8>)
    requires
        from <= to <= bytes.len(),
    ensures
        final(out)@ == old(out)@ + rle_runs(bytes@.subrange(from as int, to as int), 0),
{
    let ghost g = bytes@.subrange(from as int, to as int);
    let ghost target = out@ + rle_runs(g, 0);
    let mut j: usize = from;
    assert(out@ + rle_runs(g, 0) == target);
    while j < to
        invariant
            from <= j <= to <= bytes.len(),
            g == bytes@.subrange(from as int, to as int),
            target == out@ + rle_runs(g, j - from),
        decreases to - j,
    {
        let b = bytes[j];
        let mut cnt: u16 = 1;
        assert(g[j - from] == b);
        let ghost j0 = j;
        j += 1;
        assert(out@ + (run_records(b, cnt as nat + run_rest(g, j - from, b)) + rle_runs(
            g,
            j - from + run_rest(g, j - from, b),
        )) == target);
        while j < to && bytes[j] == b
            invariant
                from <= j0 < j <= to <= bytes.len(),
                g == bytes@.subrange(from as int, to as int),
                cnt < 65535,
                target == out@ + (run_records(b, cnt as nat + run_rest(g, j - from, b)) + rle_runs(
                    g,
                    j - from + run_rest(g, j - from, b),
                )),
            decreases to - j,
        {
            assert(g[j - from] == b);
            let ghost rest = run_rest(g, j - from + 1, b);
            let ghost tail = rle_runs(g, j - from + 1 + rest);
            assert(run_rest(g, j - from, b) == 1 + rest);
            cnt += 1;
            j += 1;
            if cnt == MAX_RUN {
                let ghost before = out@;
                out.push(b);
                out.push(255);
                out.push(255);
                assert(out@ =~= before + record(b, 65535));
                cnt = 0;
                assert(run_records(b, 65535 + rest) == record(b, 65535) + run_records(b, rest));
                assert(before + ((record(b, 65535) + run_records(b, rest)) + tail) =~= (before
                    + record(b, 65535)) + (run_records(b, rest) + tail));
            }
        }
        assert(run_rest(g, j - from, b) == 0);
        let ghost before = out@;
        out.push(b);
        out.push((cnt % 256) as u8);
        out.push((cnt / 256) as u8);
        assert(out@ =~= before + record(b, cnt as int));
        assert(before + (record(b, cnt as int) + rle_runs(g, j - from)) =~= (before + record(
            b,
            cnt as int,
        )) + rle_runs(g, j - from));
    }
    assert(rle_runs(g, j - from) =~= Seq::<u8>::empty());
    assert(out@ + Seq::<u8>::empty() =~= out@);
}

/// Appends to `out` the eight bytes of `x`, the least significant first.
fn write_header(x: u64, out: &mut Vec<u8>)
    ensures
        final(out)@ == old(out)@ + header_bytes(x as int),
{
    let ghost before = out@;
    out.push((x % 256) as u8);
    out.push((x / 0x100 % 256) as u8);
    out.push((x / 0x1_0000 % 256) as u8);
    out.push((x / 0x100_0000 % 256) as u8);
    out.push((x / 0x1_0000_0000 % 256) as u8);
    out.push((x / 0x100_0000_0000 % 256) as u8);
    out.push((x / 0x1_0000_0000_0000 % 256) as u8);
    out.push((x / 0x100_0000_0000_0000 % 256) as u8);
    assert(out@ =~= before + header_bytes(x as int));
}

/// The number in the first eight bytes of `stream`.
fn read_header(stream: &[u8]) -> (x: u64)
    requires
        stream.len() >= 8,
    ensures
        x == header_value(stream@.take(8)),
{
    let ghost h = stream@.take(8);
    assert(h[0] == stream@[0] && h[1] == stream@[1] && h[2] == stream@[2] && h[3] == stream@[3]
        && h[4] == stream@[4] && h[5] == stream@[5] && h[6] == stream@[6] && h[7] == stream@[7]);
    let b0 = stream[0] as u64;
    let b1 = stream[1] as u64;
    let b2 = stream[2] as u64;
    let b3 = stream[3] as u64;
    let b4 = stream[4] as u64;
    let b5 = stream[5] as u64;
    let b6 = stream[6] as u64;
    let b7 = stream[7] as u64;
    b0 + 0x100 * b1 + 0x1_0000 * b2 + 0x100_0000 * b3 + 0x1_0000_0000 * b4 + 0x100_0000_0000 * b5
        + 0x1_0000_0000_0000 * b6 + 0x100_0000_0000_0000 * b7
}

impl BWTStr {
    /// Appends the binary form of the sequence to `f`.
    pub fn rle_write(&self, f: &mut Vec<u8>)
        requires
            self.wf(),
        ensures
            final(f)@ == old(f)@ + rle_encoding(self.payload(), self.marker()),
    {
        let ghost before = f@;
        let bytes = self.to_bytes();
        let at = self.sentinel_index();
        write_header(at as u64, f);
        write_runs(&bytes, 0, at, f);
        write_runs(&bytes, at, bytes.len(), f);
        assert(f@ =~= before + rle_encoding(self.payload(), self.marker()));
    }

    /// Decodes the binary form of a sequence.
    pub fn rle_read(stream: &[u8]) -> (out: Result<BWTStr, BwtError>)
        ensures
            match out {
                Ok(s) => s.wf() && rle_decoding(stream@) == Some((s.payload(), s.marker())),
                Err(e) => e == BwtError::MalformedStream && rle_decoding(stream@).is_none(),
            },
    {
        let n = stream.len();
        if n < 8 || (n - 8) % 3 != 0 {
            return Err(BwtError::MalformedStream);
        }
        let at = read_header(stream);
        let ghost body = stream@.skip(8);
        let mut data: Vec<u8> = Vec::new();
        let mut pos: usize = 8;
        assert(body.skip(0) =~= body);
        assert(data@ + expand(body) =~= expand(body));
        while pos < n
            invariant
                8 <= pos <= n,
                n == stream.len(),
                (n - pos) % 3 == 0,
                body == stream@.skip(8),
                expand(body) == data@ + expand(body.skip(pos - 8)),
            decreases n - pos,
        {
            let b = stream[pos];
            let lo = stream[pos + 1] as usize;
            let hi = stream[pos + 2] as usize;
            let count: usize = lo + 256 * hi;
            let ghost cur = body.skip(pos - 8);
            let ghost before = data@;
            assert(cur[0] == b && cur[1] == lo && cur[2] == hi);
            assert(cur.skip(3) =~= body.skip(pos + 3 - 8));
            let mut c: usize = 0;
            assert(data@ =~= before + repeat(b, 0));
            while c < count
                invariant
                    c <= count,
                    data@ == before + repeat(b, c as int),
                decreases count - c,
            {
                data.push(b);
                c += 1;
                assert(data@ =~= before + repeat(b, c as int));
            }
            assert(before + (repeat(b, count as int) + expand(cur.skip(3))) =~= (before + repeat(
                b,
                count as int,
            )) + expand(cur.skip(3)));
            pos += 3;
        }
        assert(expand(body.skip(pos - 8)) =~= Seq::<u8>::empty());
        assert(data@ + Seq::<u8>::empty() =~= data@);
        if data.len() == usize::MAX || at > data.len() as u64 {
            return Err(BwtError::MalformedStream);
        }
        Ok(BWTStr::new_with_sentinal(data, at as usize))
    }
}

/// The symbols that a run counts are all the run's byte.
pub proof fn lemma_run_is_constant(s: Seq<u8>, i: int, b: u8)
    requires
        0 <= i <= s.len(),
    ensures
        forall|j: int| i <= j < i + run_rest(s, i, b) ==> s[j] == b,
    decreases s.len() - i,
{
    if i < s.len() && s[i] == b {
        lemma_run_is_constant(s, i + 1, b);
    }
}

/// Records expand one after the other: whole records in front of a stream do
/// not change what the rest of it stands for.
pub proof fn lemma_expand_concat(x: Seq<u8>, y: Seq<u8>)
    requires
        x.len() % 3 == 0,
    ensures
        expand(x + y) == expand(x) + expand(y),
    decreases x.len(),
{
    if x.len() == 0 {
        assert(x + y =~= y);
        assert(expand(x) + expand(y) =~= expand(y));
    } else {
        lemma_expand_concat(x.skip(3), y);
        assert((x + y).skip(3) =~= x.skip(3) + y);
        assert((x + y)[0] == x[0] && (x + y)[1] == x[1] && (x + y)[2] == x[2]);
        let head = repeat(x[0], x[1] + 256 * x[2]);
        assert(head + (expand(x.skip(3)) + expand(y)) =~= (head + expand(x.skip(3))) + expand(y));
    }
}

/// The records of a run are whole, and expand to the run.
pub proof fn lemma_run_records(b: u8, n: nat)
    ensures
        run_records(b, n).len() % 3 == 0,
        expand(run_records(b, n)) == repeat(b, n as int),
    decreases n,
{
    if n >= 65535 {
        let rest = (n - 65535) as nat;
        lemma_run_records(b, rest);
        let full = record(b, 65535);
        lemma_expand_concat(full, run_records(b, rest));
        assert(full.len() == 3 && full[0] == b && full[1] == 255 && full[2] == 255);
        assert(expand(full.skip(3)) =~= Seq::<u8>::empty());
        assert(expand(full) =~= repeat(b, 65535));
        assert(repeat(b, 65535) + repeat(b, rest as int) =~= repeat(b, n as int));
    } else {
        let one = record(b, n as int);
        assert(one.len() == 3 && one[0] == b && one[1] == n % 256 && one[2] == n / 256);
        assert(expand(one.skip(3)) =~= Seq::<u8>::empty());
        assert(expand(one) =~= repeat(b, n as int));
    }
}

/// The records of a byte sequence are whole, and expand to the sequence.
pub proof fn lemma_rle_runs(s: Seq<u8>, i: int)
    requires
        0 <= i <= s.len(),
    ensures
        rle_runs(s, i).len() % 3 == 0,
        expand(rle_runs(s, i)) == s.skip(i),
    decreases s.len() - i,
{
    if i < s.len() {
        let n = (1 + run_rest(s, i + 1, s[i])) as int;
        lemma_run_rest_bounded(s, i + 1, s[i]);
        lemma_run_is_constant(s, i + 1, s[i]);
        lemma_rle_runs(s, i + n);
        lemma_run_records(s[i], n as nat);
        lemma_expand_concat(run_records(s[i], n as nat), rle_runs(s, i + n));
        assert(repeat(s[i], n) + s.skip(i + n) =~= s.skip(i));
    } else {
        assert(s.skip(i) =~= Seq::<u8>::empty());
    }
}

/// The header holds its number.
pub proof fn lemma_header_round_trip(x: int)
    requires
        0 <= x <= u64::MAX,
    ensures
        header_bytes(x).len() == 8,
        header_value(header_bytes(x)) == x,
{
    let q1 = x / 0x100;
    let q2 = q1 / 0x100;
    let q3 = q2 / 0x100;
    let q4 = q3 / 0x100;
    let q5 = q4 / 0x100;
    let q6 = q5 / 0x100;
    let q7 = q6 / 0x100;
    lemma_div_denominator(x, 0x100, 0x100);
    lemma_div_denominator(x, 0x1_0000, 0x100);
    lemma_div_denominator(x, 0x100_0000, 0x100);
    lemma_div_denominator(x, 0x1_0000_0000, 0x100);
    lemma_div_denominator(x, 0x100_0000_0000, 0x100);
    lemma_div_denominator(x, 0x1_0000_0000_0000, 0x100);
    assert(x / 0x1_0000 == q2);
    assert(x / 0x100_0000 == q3);
    assert(x / 0x1_0000_0000 == q4);
    assert(x / 0x100_0000_0000 == q5);
    assert(x / 0x1_0000_0000_0000 == q6);
    assert(x / 0x100_0000_0000_0000 == q7);
    assert(q7 < 256);
    let h = header_bytes(x);
    assert(h[0] == x % 256 && h[1] == q1 % 256 && h[2] == q2 % 256 && h[3] == q3 % 256);
    assert(h[4] == q4 % 256 && h[5] == q5 % 256 && h[6] == q6 % 256 && h[7] == q7 % 256);
    assert(x == 256 * q1 + x % 256);
    assert(q1 == 256 * q2 + q1 % 256);
    assert(q2 == 256 * q3 + q2 % 256);
    assert(q3 == 256 * q4 + q3 % 256);
    assert(q4 == 256 * q5 + q4 % 256);
    assert(q5 == 256 * q6 + q5 % 256);
    assert(q6 == 256 * q7 + q6 % 256);
}

/// Decoding undoes encoding: the binary form of any bytes with a marker among
/// them decodes to those bytes and that place of the marker.
pub proof fn lemma_rle_round_trip(payload: Seq<u8>, at: int)
    requires
        0 <= at <= payload.len() < usize::MAX,
    ensures
        rle_decoding(rle_encoding(payload, at)) == Some((payload, at)),
{
    let front = payload.subrange(0, at);
    let back = payload.subrange(at, payload.len() as int);
    let h = header_bytes(at);
    let a = rle_runs(front, 0);
    let b = rle_runs(back, 0);
    let e = rle_encoding(payload, at);
    lemma_header_round_trip(at);
    lemma_rle_runs(front, 0);
    lemma_rle_runs(back, 0);
    lemma_expand_concat(a, b);
    assert(e.take(8) =~= h);
    assert(e.skip(8) =~= a + b);
    assert(front.skip(0) + back.skip(0) =~= payload);
}

} // verus!
