//! The inverse transform undoes the forward transform.

use crate::bwtstring::with_sentinel;
use crate::error::BwtError;
use crate::inverse::{
    count_below, count_eq, in_block, inverse, is_sorted_column, lemma_occurrence_exists, lf,
    lf_walk,
};
use crate::pipeline::{decompressed, is_compressed_form};
use crate::rle::lemma_rle_round_trip;
use crate::rotation::{
    first_column, first_difference, is_bwt_of, is_rotation_order, last_column,
    lemma_anchor_is_row_zero,
    lemma_row_of, lemma_rows_follow_rotations, rotated, rotation_lt, row_of,
};
use crate::symbol::BWTByte;
use vstd::prelude::*;
use vstd::relations::injective_on;
use vstd::set_lib::{lemma_int_range, lemma_map_size, set_int_range};

verus! {

/// The position before `k`, going round a sequence of `n` symbols.
pub open spec fn pred(n: int, k: int) -> int {
    if k == 0 {
        n - 1
    } else {
        k - 1
    }
}

/// The position after `k`, going round a sequence of `n` symbols.
pub open spec fn succ(n: int, k: int) -> int {
    if k + 1 == n {
        0
    } else {
        k + 1
    }
}

/// `v` brought back into a sequence of `n` symbols, for `v` below `2 * n`.
pub open spec fn wrap(n: int, v: int) -> int {
    if v >= n {
        v - n
    } else {
        v
    }
}

/// The byte that a symbol holds.
pub open spec fn byte_of(b: BWTByte) -> u8 {
    match b {
        BWTByte::Byte(v) => v,
        BWTByte::Sentinel => 0,
    }
}

/// The `m` symbols that follow position `p`, going round `s`.
pub open spec fn cyclic_bytes(s: Seq<BWTByte>, p: int, m: int) -> Seq<u8> {
    Seq::new(m as nat, |j: int| byte_of(s[wrap(s.len() as int, p + 1 + j)]))
}

/// The rows whose symbol, taken with the row number, stands before `b` in row
/// `i`, among the first `n` rows.
pub open spec fn less_rows(t: Seq<BWTByte>, b: BWTByte, i: int, n: int) -> Set<int> {
    Set::new(|j: int| 0 <= j < n && (t[j].precedes(b) || (t[j] == b && j < i)))
}

/// Those rows are as many as the symbols before `b` and the occurrences of
/// `b` before row `i`.
proof fn lemma_less_rows(t: Seq<BWTByte>, b: BWTByte, i: int, n: int)
    requires
        0 <= n,
        0 <= i,
    ensures
        less_rows(t, b, i, n).finite(),
        less_rows(t, b, i, n).len() == count_below(t, b, n) + count_eq(
            t,
            b,
            if n <= i {
                n
            } else {
                i
            },
        ),
    decreases n,
{
    if n == 0 {
        assert(less_rows(t, b, i, n) =~= Set::<int>::empty());
    } else {
        lemma_less_rows(t, b, i, n - 1);
        let j = n - 1;
        if t[j].precedes(b) || (t[j] == b && j < i) {
            assert(less_rows(t, b, i, n) =~= less_rows(t, b, i, n - 1).insert(j));
        } else {
            assert(less_rows(t, b, i, n) =~= less_rows(t, b, i, n - 1));
        }
    }
}

/// Two rotations that start one position earlier stand in the order of their
/// first symbols, and where those are equal, in the order of the rotations
/// themselves.
proof fn lemma_shifted_order(s: Seq<BWTByte>, a: int, c: int)
    requires
        0 <= a < s.len(),
        0 <= c < s.len(),
    ensures
        rotation_lt(s, pred(s.len() as int, a), pred(s.len() as int, c)) <==> (s[pred(
            s.len() as int,
            a,
        )].precedes(s[pred(s.len() as int, c)]) || (s[pred(s.len() as int, a)] == s[pred(
            s.len() as int,
            c,
        )] && rotation_lt(s, a, c))),
{
    let n = s.len() as int;
    let pa = pred(n, a);
    let pc = pred(n, c);
    assert forall|j: int| 0 <= j < n - 1 implies #[trigger] rotated(s, pa, j + 1) == rotated(
        s,
        a,
        j,
    ) && rotated(s, pc, j + 1) == rotated(s, c, j) by {}
    assert(rotated(s, a, n - 1) == s[pa]);
    assert(rotated(s, c, n - 1) == s[pc]);
    assert(rotated(s, pa, 0) == s[pa]);
    assert(rotated(s, pc, 0) == s[pc]);
    if rotation_lt(s, pa, pc) {
        let d = choose|d: int| first_difference(s, pa, pc, d);
        if d > 0 {
            assert(rotated(s, pa, 0) == rotated(s, pc, 0));
            assert forall|j: int| 0 <= j < d - 1 implies #[trigger] rotated(s, a, j) == rotated(
                s,
                c,
                j,
            ) by {
                assert(rotated(s, pa, j + 1) == rotated(s, pc, j + 1));
            }
            assert(rotated(s, pa, (d - 1) + 1) == rotated(s, a, d - 1));
            assert(rotated(s, pc, (d - 1) + 1) == rotated(s, c, d - 1));
            assert(first_difference(s, a, c, d - 1));
        }
    }
    if s[pa].precedes(s[pc]) {
        assert(first_difference(s, pa, pc, 0));
    }
    if s[pa] == s[pc] && rotation_lt(s, a, c) {
        let d = choose|d: int| first_difference(s, a, c, d);
        assert(d != n - 1);
        assert forall|j: int| 0 <= j < d + 1 implies #[trigger] rotated(s, pa, j) == rotated(
            s,
            pc,
            j,
        ) by {
            if j > 0 {
                assert(rotated(s, pa, (j - 1) + 1) == rotated(s, a, j - 1));
                assert(rotated(s, pc, (j - 1) + 1) == rotated(s, c, j - 1));
                assert(rotated(s, a, j - 1) == rotated(s, c, j - 1));
            }
        }
        assert(rotated(s, pa, d + 1) == rotated(s, a, d));
        assert(rotated(s, pc, d + 1) == rotated(s, c, d));
        assert(first_difference(s, pa, pc, d + 1));
    }
}

/// The mapping leads from the row of a rotation to the row of the rotation
/// that starts one position earlier.
pub proof fn lemma_lf_steps_back(s: Seq<BWTByte>, ord: Seq<usize>, i: int)
    requires
        is_rotation_order(s, ord),
        0 <= i < ord.len(),
        last_column(s, ord)[i] != BWTByte::Sentinel,
    ensures
        0 <= lf(last_column(s, ord), i) < ord.len(),
        ord[lf(last_column(s, ord), i)] == pred(s.len() as int, ord[i] as int),
{
    let n = s.len() as int;
    let t = last_column(s, ord);
    let k = pred(n, ord[i] as int);
    let b = t[i];
    assert(b == s[k]);
    lemma_row_of(s, ord, k);
    let target = row_of(ord, k);
    let rows = less_rows(t, b, i, n);
    lemma_less_rows(t, b, i, n);
    let f = |j: int| row_of(ord, pred(n, ord[j] as int));
    assert forall|j1: int, j2: int|
        rows.contains(j1) && rows.contains(j2) && #[trigger] f(j1) == #[trigger] f(
            j2,
        ) implies j1 == j2 by {
        lemma_row_of(s, ord, pred(n, ord[j1] as int));
        lemma_row_of(s, ord, pred(n, ord[j2] as int));
        assert(ord[j1] == ord[j2]);
        lemma_rows_follow_rotations(s, ord, j1, j2);
    }
    assert(injective_on(f, rows));
    let range = set_int_range(0, target);
    assert forall|r: int| range.contains(r) <==> rows.map(f).contains(r) by {
        if range.contains(r) {
            let next = succ(n, ord[r] as int);
            lemma_row_of(s, ord, next);
            let j = row_of(ord, next);
            assert(pred(n, ord[j] as int) == ord[r]);
            lemma_rows_follow_rotations(s, ord, r, target);
            lemma_shifted_order(s, ord[j] as int, ord[i] as int);
            assert(t[j] == s[pred(n, ord[j] as int)]);
            lemma_rows_follow_rotations(s, ord, j, i);
            assert(rows.contains(j));
            lemma_row_of(s, ord, ord[r] as int);
            lemma_rows_follow_rotations(s, ord, row_of(ord, ord[r] as int), r);
            assert(f(j) == r);
            assert(rows.contains(j) && r == f(j));
        }
        if rows.map(f).contains(r) {
            let j = choose|j: int| rows.contains(j) && r == f(j);
            lemma_row_of(s, ord, pred(n, ord[j] as int));
            lemma_shifted_order(s, ord[j] as int, ord[i] as int);
            assert(t[j] == s[pred(n, ord[j] as int)]);
            lemma_rows_follow_rotations(s, ord, j, i);
            lemma_rows_follow_rotations(s, ord, r, target);
        }
    }
    assert(rows.map(f) =~= range);
    lemma_int_range(0, target);
    lemma_map_size(rows, range, f);
}

/// The first column of the sorted rotations is the last column sorted.
pub proof fn lemma_first_column_is_sorted(bytes: Seq<u8>, at: int, ord: Seq<usize>)
    requires
        0 <= at <= bytes.len(),
        is_rotation_order(with_sentinel(bytes, at), ord),
    ensures
        is_sorted_column(
            first_column(with_sentinel(bytes, at), ord),
            last_column(with_sentinel(bytes, at), ord),
        ),
{
    let s = with_sentinel(bytes, at);
    let n = s.len() as int;
    let t = last_column(s, ord);
    let left = first_column(s, ord);
    lemma_anchor_is_row_zero(bytes, at, ord);
    assert forall|b: u8, r: int| #[trigger] in_block(t, b, r) implies left[r] == BWTByte::Byte(
        b,
    ) by {
        let sym = BWTByte::Byte(b);
        let q = r - count_below(t, sym, n);
        lemma_occurrence_exists(t, sym, q, n);
        let i = choose|i: int| 0 <= i < n && t[i] == sym && #[trigger] count_eq(t, sym, i) == q;
        assert(lf(t, i) == r);
        lemma_lf_steps_back(s, ord, i);
        assert(t[i] == s[pred(n, ord[i] as int)]);
    }
}

/// The walk from the row of the rotation that starts `m + 1` positions behind
/// the marker gathers the `m` symbols between the marker and that position.
pub proof fn lemma_walk(bytes: Seq<u8>, at: int, ord: Seq<usize>, i: int, m: int, fuel: nat)
    requires
        0 <= at <= bytes.len(),
        is_rotation_order(with_sentinel(bytes, at), ord),
        0 <= i < ord.len(),
        0 <= m < ord.len(),
        ord[i] == wrap(ord.len() as int, at + 1 + m),
        fuel > m,
    ensures
        lf_walk(last_column(with_sentinel(bytes, at), ord), i, fuel) == Some(
            cyclic_bytes(with_sentinel(bytes, at), at, m),
        ),
    decreases m,
{
    let s = with_sentinel(bytes, at);
    let n = s.len() as int;
    let t = last_column(s, ord);
    assert(t[i] == s[pred(n, ord[i] as int)]);
    if m == 0 {
        assert(t[i] == BWTByte::Sentinel);
        assert(cyclic_bytes(s, at, 0) =~= Seq::<u8>::empty());
    } else {
        assert(pred(n, ord[i] as int) == wrap(n, at + m));
        lemma_lf_steps_back(s, ord, i);
        let next = lf(t, i);
        lemma_walk(bytes, at, ord, next, m - 1, (fuel - 1) as nat);
        assert(cyclic_bytes(s, at, m - 1).push(byte_of(t[i])) =~= cyclic_bytes(s, at, m));
    }
}

/// The inverse transform undoes the forward transform. For any bytes with the
/// marker among them, the inverse of their transform is the bytes behind the
/// marker followed by the bytes before it.
pub proof fn lemma_inverse_of_forward(bytes: Seq<u8>, at: int, t: Seq<BWTByte>)
    requires
        0 <= at <= bytes.len(),
        is_bwt_of(t, with_sentinel(bytes, at)),
    ensures
        inverse(t) == Some(bytes.subrange(at, bytes.len() as int) + bytes.subrange(0, at)),
{
    let s = with_sentinel(bytes, at);
    let n = s.len() as int;
    let ord = choose|ord: Seq<usize>| is_rotation_order(s, ord) && t == last_column(s, ord);
    lemma_anchor_is_row_zero(bytes, at, ord);
    lemma_walk(bytes, at, ord, 0, n - 1, n as nat);
    assert(cyclic_bytes(s, at, n - 1) =~= bytes.subrange(at, bytes.len() as int) + bytes.subrange(
        0,
        at,
    ));
}

/// Round trip of the transform: bytes followed by the marker, transformed and
/// transformed back, are the same bytes.
pub proof fn lemma_transform_round_trip(bytes: Seq<u8>, t: Seq<BWTByte>)
    requires
        is_bwt_of(t, with_sentinel(bytes, bytes.len() as int)),
    ensures
        inverse(t) == Some(bytes),
{
    lemma_inverse_of_forward(bytes, bytes.len() as int, t);
    assert(bytes.subrange(bytes.len() as int, bytes.len() as int) + bytes.subrange(
        0,
        bytes.len() as int,
    ) =~= bytes);
}

/// Round trip of the pipeline: what a compressed form of `data` decompresses
/// to is `data`.
pub proof fn lemma_decompress_compress(data: Seq<u8>, stream: Seq<u8>)
    requires
        data.len() < usize::MAX,
        is_compressed_form(stream, data),
    ensures
        decompressed(stream) == Ok::<Seq<u8>, BwtError>(data),
{
    let (t, at) = choose|t: Seq<u8>, at: int|
        0 <= at <= t.len() && #[trigger] is_bwt_of(
            with_sentinel(t, at),
            with_sentinel(data, data.len() as int),
        ) && stream == crate::rle::rle_encoding(t, at);
    lemma_rle_round_trip(t, at);
    lemma_transform_round_trip(data, with_sentinel(t, at));
}

} // verus!
