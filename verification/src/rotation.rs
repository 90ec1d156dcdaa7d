//! Cyclic rotations of a symbol sequence, their order, and the forward
//! transform built on them.

use crate::bwtstring::{with_sentinel, BWTStr};
use crate::inverse::inverse;
use crate::round_trip::lemma_inverse_of_forward;
use crate::symbol::BWTByte;
use vstd::prelude::*;
use vstd::relations::injective_on;
use vstd::set_lib::{lemma_int_range, lemma_map_size, set_int_range};

verus! {

/// Symbol `j` of the rotation of `s` that starts at position `k`.
pub open spec fn rotated(s: Seq<BWTByte>, k: int, j: int) -> BWTByte {
    if k + j < s.len() {
        s[k + j]
    } else {
        s[k + j - s.len()]
    }
}

/// The rotation of `s` that starts at position `k`: `s` rotated left `k` times.
pub open spec fn rotation(s: Seq<BWTByte>, k: int) -> Seq<BWTByte> {
    Seq::new(s.len(), |j: int| rotated(s, k, j))
}

/// Rotations `a` and `b` agree before column `d`, and at `d` the symbol of `a`
/// is the smaller one.
pub open spec fn first_difference(s: Seq<BWTByte>, a: int, b: int, d: int) -> bool {
    &&& 0 <= d < s.len()
    &&& forall|j: int| 0 <= j < d ==> #[trigger] rotated(s, a, j) == rotated(s, b, j)
    &&& rotated(s, a, d).precedes(rotated(s, b, d))
}

/// Rotation `a` stands strictly before rotation `b`, symbol by symbol.
pub open spec fn rotation_lt(s: Seq<BWTByte>, a: int, b: int) -> bool {
    exists|d: int| first_difference(s, a, b, d)
}

/// `ord` lists the start positions of all rotations of `s`, each once, the
/// rotations in strictly ascending order.
pub open spec fn is_rotation_order(s: Seq<BWTByte>, ord: Seq<usize>) -> bool {
    &&& s.len() <= usize::MAX
    &&& ord.len() == s.len()
    &&& forall|r: int| 0 <= r < ord.len() ==> (#[trigger] ord[r]) < s.len()
    &&& forall|k: usize| k < s.len() ==> #[trigger] ord.contains(k)
    &&& forall|r1: int, r2: int|
        0 <= r1 < r2 < ord.len() ==> rotation_lt(s, (#[trigger] ord[r1]) as int, (#[trigger] ord[r2]) as int)
}

/// The last symbol of each rotation, the rotations taken in the order `ord`.
pub open spec fn last_column(s: Seq<BWTByte>, ord: Seq<usize>) -> Seq<BWTByte> {
    Seq::new(ord.len(), |r: int| rotated(s, ord[r] as int, s.len() - 1))
}

/// The first symbol of each rotation, the rotations taken in the order `ord`.
pub open spec fn first_column(s: Seq<BWTByte>, ord: Seq<usize>) -> Seq<BWTByte> {
    Seq::new(ord.len(), |r: int| rotated(s, ord[r] as int, 0))
}

/// `t` is the last column of the sorted rotations of `s`.
pub open spec fn is_bwt_of(t: Seq<BWTByte>, s: Seq<BWTByte>) -> bool {
    exists|ord: Seq<usize>| is_rotation_order(s, ord) && t == last_column(s, ord)
}

/// The order of rotations is transitive.
pub proof fn lemma_rotation_lt_transitive(s: Seq<BWTByte>, a: int, b: int, c: int)
    requires
        rotation_lt(s, a, b),
        rotation_lt(s, b, c),
    ensures
        rotation_lt(s, a, c),
{
    let d1 = choose|d: int| first_difference(s, a, b, d);
    let d2 = choose|d: int| first_difference(s, b, c, d);
    let d = if d1 <= d2 { d1 } else { d2 };
    assert forall|j: int| 0 <= j < d implies #[trigger] rotated(s, a, j) == rotated(s, c, j) by {
        assert(rotated(s, a, j) == rotated(s, b, j));
        assert(rotated(s, b, j) == rotated(s, c, j));
    }
    assert(rotated(s, a, d).key() <= rotated(s, b, d).key());
    assert(rotated(s, b, d).key() <= rotated(s, c, d).key());
    assert(first_difference(s, a, c, d));
}

impl BWTStr {
    /// Symbol `j` of the rotation that starts at position `k`.
    pub fn rotated_symbol(&self, k: usize, j: usize) -> (b: BWTByte)
        requires
            self.wf(),
            k < self@.len(),
            j < self@.len(),
        ensures
            b == rotated(self@, k as int, j as int),
    {
        let n = self.len();
        if j < n - k {
            self.symbol(k + j)
        } else {
            self.symbol(j - (n - k))
        }
    }

    /// Whether rotation `a` stands strictly before rotation `b`. Two different
    /// rotations are never equal, so one of them stands before the other.
    pub fn rotation_less(&self, a: usize, b: usize) -> (r: bool)
        requires
            self.wf(),
            a < self@.len(),
            b < self@.len(),
        ensures
            r == rotation_lt(self@, a as int, b as int),
            !r && a != b ==> rotation_lt(self@, b as int, a as int),
    {
        let n = self.len();
        let mut j: usize = 0;
        while j < n
            invariant
                self.wf(),
                n == self@.len(),
                a < n,
                b < n,
                j <= n,
                forall|i: int|
                    0 <= i < j ==> #[trigger] rotated(self@, a as int, i) == rotated(
                        self@,
                        b as int,
                        i,
                    ),
            decreases n - j,
        {
            let x = self.rotated_symbol(a, j);
            let y = self.rotated_symbol(b, j);
            if x == y {
                j += 1;
            } else if x.is_before(&y) {
                assert(first_difference(self@, a as int, b as int, j as int));
                return true;
            } else {
                assert(y.precedes(x));
                assert(first_difference(self@, b as int, a as int, j as int));
                assert forall|d: int| !first_difference(self@, a as int, b as int, d) by {
                    if d > j {
                        assert(rotated(self@, a as int, j as int) != rotated(
                            self@,
                            b as int,
                            j as int,
                        ));
                    }
                }
                return false;
            }
        }
        proof {
            let s = self@;
            let p = self.marker();
            assert forall|d: int| !first_difference(s, a as int, b as int, d) by {
                if 0 <= d < n {
                    assert(rotated(s, a as int, d) == rotated(s, b as int, d));
                }
            }
            if a != b {
                let ja = if p >= a { p - a } else { p + n - a };
                assert(rotated(s, a as int, ja) == BWTByte::Sentinel);
                assert(rotated(s, b as int, ja) == BWTByte::Sentinel);
                assert(false);
            }
        }
        false
    }

    /// The start positions of all rotations, the rotations sorted ascending.
    pub fn all_rotations_sorted(&self) -> (ord: Vec<usize>)
        requires
            self.wf(),
        ensures
            is_rotation_order(self@, ord@),
    {
        let n = self.len();
        let mut ord: Vec<usize> = Vec::new();
        let mut k: usize = 0;
        while k < n
            invariant
                self.wf(),
                n == self@.len(),
                k <= n,
                ord.len() == k,
                forall|r: int| 0 <= r < ord.len() ==> (#[trigger] ord@[r]) < k,
                forall|j: usize| j < k ==> #[trigger] ord@.contains(j),
                forall|r1: int, r2: int|
                    0 <= r1 < r2 < ord.len() ==> rotation_lt(
                        self@,
                        (#[trigger] ord@[r1]) as int,
                        (#[trigger] ord@[r2]) as int,
                    ),
            decreases n - k,
        {
            let mut pos: usize = 0;
            while pos < ord.len() && self.rotation_less(ord[pos], k)
                invariant
                    self.wf(),
                    n == self@.len(),
                    k < n,
                    ord.len() == k,
                    pos <= ord.len(),
                    forall|r: int| 0 <= r < ord.len() ==> (#[trigger] ord@[r]) < k,
                    forall|r: int|
                        0 <= r < pos ==> rotation_lt(self@, (#[trigger] ord@[r]) as int, k as int),
                decreases ord.len() - pos,
            {
                pos += 1;
            }
            let ghost before = ord@;
            proof {
                if pos < before.len() {
                    assert(before[pos as int] < k);
                    assert(rotation_lt(self@, k as int, before[pos as int] as int));
                    assert forall|r: int| pos <= r < before.len() implies rotation_lt(
                        self@,
                        k as int,
                        (#[trigger] before[r]) as int,
                    ) by {
                        if r > pos {
                            assert(rotation_lt(
                                self@,
                                before[pos as int] as int,
                                before[r] as int,
                            ));
                            lemma_rotation_lt_transitive(
                                self@,
                                k as int,
                                before[pos as int] as int,
                                before[r] as int,
                            );
                        }
                    }
                }
            }
            ord.insert(pos, k);
            proof {
                let after = ord@;
                assert(after == before.insert(pos as int, k));
                assert forall|j: usize| j < k + 1 implies #[trigger] after.contains(j) by {
                    if j == k {
                        assert(after[pos as int] == k);
                    } else {
                        assert(before.contains(j));
                        let r = choose|r: int| 0 <= r < before.len() && before[r] == j;
                        if r < pos {
                            assert(after[r] == j);
                        } else {
                            assert(after[r + 1] == j);
                        }
                    }
                }
                assert forall|r1: int, r2: int| 0 <= r1 < r2 < after.len() implies rotation_lt(
                    self@,
                    (#[trigger] after[r1]) as int,
                    (#[trigger] after[r2]) as int,
                ) by {
                    let q1 = if r1 < pos { r1 } else { r1 - 1 };
                    let q2 = if r2 < pos { r2 } else { r2 - 1 };
                    if r1 != pos && r2 != pos {
                        assert(after[r1] == before[q1]);
                        assert(after[r2] == before[q2]);
                    } else if r1 == pos {
                        assert(after[r2] == before[q2]);
                    } else {
                        assert(after[r1] == before[q1]);
                    }
                }
            }
            k += 1;
        }
        ord
    }

    /// The forward transform: the last column of the sorted rotations. The
    /// inverse transform leads back from it to the bytes behind the marker
    /// followed by the bytes before it; with the marker at the end, to the
    /// bytes as they are.
    pub fn forward_transform(&self) -> (out: Self)
        requires
            self.wf(),
        ensures
            out.wf(),
            out@.len() == self@.len(),
            is_bwt_of(out@, self@),
            inverse(out@) == Some(
                self.payload().subrange(self.marker(), self.payload().len() as int)
                    + self.payload().subrange(0, self.marker()),
            ),
    {
        let n = self.len();
        let ord = self.all_rotations_sorted();
        let ghost s = self@;
        let ghost col = last_column(s, ord@);
        let mut bytes: Vec<u8> = Vec::new();
        let mut at: usize = 0;
        let mut found = false;
        let mut r: usize = 0;
        while r < n
            invariant
                self.wf(),
                s == self@,
                n == s.len(),
                is_rotation_order(s, ord@),
                col == last_column(s, ord@),
                r <= n,
                found ==> at < r && col[at as int] == BWTByte::Sentinel && bytes.len() + 1 == r,
                !found ==> bytes.len() == r,
                forall|q: int| 0 <= q < r && !found ==> #[trigger] col[q] == BWTByte::Byte(bytes@[q]),
                forall|q: int| 0 <= q < at && found ==> #[trigger] col[q] == BWTByte::Byte(bytes@[q]),
                forall|q: int|
                    at < q < r && found ==> #[trigger] col[q] == BWTByte::Byte(bytes@[q - 1]),
            decreases n - r,
        {
            let k = ord[r];
            let src = if k == 0 {
                n - 1
            } else {
                k - 1
            };
            let sym = self.symbol(src);
            assert(sym == col[r as int]);
            match sym {
                BWTByte::Sentinel => {
                    proof {
                        if found {
                            assert(ord@[at as int] == ord@[r as int]);
                            assert(rotation_lt(s, ord@[at as int] as int, ord@[r as int] as int));
                            assert(false);
                        }
                    }
                    at = r;
                    found = true;
                },
                BWTByte::Byte(b) => {
                    bytes.push(b);
                },
            }
            r += 1;
        }
        proof {
            let p = self.marker();
            let next: usize = if p + 1 < n {
                (p + 1) as usize
            } else {
                0
            };
            assert(ord@.contains(next));
            let q = choose|q: int| 0 <= q < ord@.len() && ord@[q] == next;
            assert(col[q] == BWTByte::Sentinel);
            assert(found);
        }
        let out = BWTStr::new_with_sentinal(bytes, at);
        proof {
            assert(out@ =~= col);
            lemma_inverse_of_forward(self.payload(), self.marker(), out@);
        }
        out
    }
}

/// The sorted rotations begin with the one that starts at the end marker: the
/// first symbol of row 0 is the marker, and of no other row, whatever the
/// sequence holds.
pub proof fn lemma_anchor_is_row_zero(bytes: Seq<u8>, at: int, ord: Seq<usize>)
    requires
        0 <= at <= bytes.len(),
        is_rotation_order(with_sentinel(bytes, at), ord),
    ensures
        ord[0] == at,
        first_column(with_sentinel(bytes, at), ord)[0] == BWTByte::Sentinel,
        forall|r: int|
            0 < r < ord.len() ==> #[trigger] first_column(with_sentinel(bytes, at), ord)[r]
                != BWTByte::Sentinel,
{
    let s = with_sentinel(bytes, at);
    assert(ord.contains(at as usize));
    let q = choose|q: int| 0 <= q < ord.len() && ord[q] == at as usize;
    if q != 0 {
        assert(rotation_lt(s, ord[0] as int, ord[q] as int));
        let d = choose|d: int| first_difference(s, ord[0] as int, at, d);
        if d > 0 {
            assert(rotated(s, ord[0] as int, 0) == rotated(s, at, 0));
        }
        assert(false);
    }
    assert forall|r: int| 0 < r < ord.len() implies #[trigger] first_column(s, ord)[r]
        != BWTByte::Sentinel by {
        assert(rotation_lt(s, ord[0] as int, ord[r] as int));
        if ord[r] == ord[0] {
            let d = choose|d: int| first_difference(s, ord[0] as int, ord[r] as int, d);
            assert(false);
        }
    }
}

/// No rotation stands before itself.
pub proof fn lemma_rotation_lt_irreflexive(s: Seq<BWTByte>, a: int)
    ensures
        !rotation_lt(s, a, a),
{
    if rotation_lt(s, a, a) {
        let d = choose|d: int| first_difference(s, a, a, d);
        assert(false);
    }
}

/// The row of the rotation that starts at `k`.
pub open spec fn row_of(ord: Seq<usize>, k: int) -> int {
    choose|r: int| 0 <= r < ord.len() && ord[r] == k
}

/// Every rotation has a row.
pub proof fn lemma_row_of(s: Seq<BWTByte>, ord: Seq<usize>, k: int)
    requires
        is_rotation_order(s, ord),
        0 <= k < s.len(),
    ensures
        0 <= row_of(ord, k) < ord.len(),
        ord[row_of(ord, k)] == k,
{
    assert(ord.contains(k as usize));
    let r = choose|r: int| 0 <= r < ord.len() && ord[r] == k as usize;
    assert(0 <= r < ord.len() && ord[r] == k);
}

/// Rows stand in the order of their rotations.
pub proof fn lemma_rows_follow_rotations(s: Seq<BWTByte>, ord: Seq<usize>, r1: int, r2: int)
    requires
        is_rotation_order(s, ord),
        0 <= r1 < ord.len(),
        0 <= r2 < ord.len(),
    ensures
        rotation_lt(s, ord[r1] as int, ord[r2] as int) <==> r1 < r2,
        ord[r1] == ord[r2] <==> r1 == r2,
{
    lemma_rotation_lt_irreflexive(s, ord[r1] as int);
    if r2 < r1 {
        assert(rotation_lt(s, ord[r2] as int, ord[r1] as int));
        if rotation_lt(s, ord[r1] as int, ord[r2] as int) {
            lemma_rotation_lt_transitive(s, ord[r1] as int, ord[r2] as int, ord[r1] as int);
        }
    }
    if r1 < r2 {
        assert(rotation_lt(s, ord[r1] as int, ord[r2] as int));
    }
}

/// A rotation stands in the same row of any two orders of the rotations.
proof fn lemma_same_row(s: Seq<BWTByte>, ord1: Seq<usize>, ord2: Seq<usize>, r: int)
    requires
        is_rotation_order(s, ord1),
        is_rotation_order(s, ord2),
        0 <= r < ord1.len(),
    ensures
        ord2[r] == ord1[r],
{
    let k = ord1[r] as int;
    lemma_row_of(s, ord2, k);
    let r2 = row_of(ord2, k);
    let rows = set_int_range(0, r);
    let range = set_int_range(0, r2);
    let f = |j: int| row_of(ord2, ord1[j] as int);
    assert forall|j1: int, j2: int|
        rows.contains(j1) && rows.contains(j2) && #[trigger] f(j1) == #[trigger] f(
            j2,
        ) implies j1 == j2 by {
        lemma_row_of(s, ord2, ord1[j1] as int);
        lemma_row_of(s, ord2, ord1[j2] as int);
        lemma_rows_follow_rotations(s, ord1, j1, j2);
    }
    assert(injective_on(f, rows));
    assert forall|q: int| range.contains(q) <==> rows.map(f).contains(q) by {
        if range.contains(q) {
            lemma_row_of(s, ord1, ord2[q] as int);
            let j = row_of(ord1, ord2[q] as int);
            lemma_rows_follow_rotations(s, ord2, q, r2);
            lemma_rows_follow_rotations(s, ord1, j, r);
            lemma_row_of(s, ord2, ord2[q] as int);
            lemma_rows_follow_rotations(s, ord2, row_of(ord2, ord2[q] as int), q);
            assert(rows.contains(j) && q == f(j));
        }
        if rows.map(f).contains(q) {
            let j = choose|j: int| rows.contains(j) && q == f(j);
            lemma_row_of(s, ord2, ord1[j] as int);
            lemma_rows_follow_rotations(s, ord1, j, r);
            lemma_rows_follow_rotations(s, ord2, q, r2);
        }
    }
    assert(rows.map(f) =~= range);
    lemma_int_range(0, r);
    lemma_int_range(0, r2);
    lemma_map_size(rows, range, f);
}

/// The rotations of a sequence have one order only.
pub proof fn lemma_rotation_order_unique(s: Seq<BWTByte>, ord1: Seq<usize>, ord2: Seq<usize>)
    requires
        is_rotation_order(s, ord1),
        is_rotation_order(s, ord2),
    ensures
        ord1 == ord2,
{
    assert forall|r: int| 0 <= r < ord1.len() implies ord1[r] == ord2[r] by {
        lemma_same_row(s, ord1, ord2, r);
    }
    assert(ord1 =~= ord2);
}

/// A sequence has one transform only.
pub proof fn lemma_bwt_unique(s: Seq<BWTByte>, t1: Seq<BWTByte>, t2: Seq<BWTByte>)
    requires
        is_bwt_of(t1, s),
        is_bwt_of(t2, s),
    ensures
        t1 == t2,
{
    let ord1 = choose|ord: Seq<usize>| is_rotation_order(s, ord) && t1 == last_column(s, ord);
    let ord2 = choose|ord: Seq<usize>| is_rotation_order(s, ord) && t2 == last_column(s, ord);
    lemma_rotation_order_unique(s, ord1, ord2);
}

} // verus!
