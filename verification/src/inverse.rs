//! The inverse transform: a walk along the last-to-first mapping.

use crate::bwtstring::BWTStr;
use crate::error::BwtError;
use crate::symbol::BWTByte;
use vstd::prelude::*;

verus! {

/// How many of the first `n` symbols of `s` equal `b`.
pub open spec fn count_eq(s: Seq<BWTByte>, b: BWTByte, n: int) -> nat
    decreases n,
{
    if n <= 0 {
        0
    } else {
        count_eq(s, b, n - 1) + if s[n - 1] == b {
            1nat
        } else {
            0nat
        }
    }
}

/// How many of the first `n` symbols of `s` stand before `b` in the alphabet.
pub open spec fn count_below(s: Seq<BWTByte>, b: BWTByte, n: int) -> nat
    decreases n,
{
    if n <= 0 {
        0
    } else {
        count_below(s, b, n - 1) + if s[n - 1].precedes(b) {
            1nat
        } else {
            0nat
        }
    }
}

/// The rank of position `i`: how often its symbol occurs before it.
pub open spec fn rank(s: Seq<BWTByte>, i: int) -> nat {
    count_eq(s, s[i], i)
}

/// The last-to-first mapping. Row `i` of the last column holds the `rank`-th
/// occurrence of its symbol; the same occurrence stands in the sorted first
/// column after all smaller symbols and after the earlier occurrences.
pub open spec fn lf(s: Seq<BWTByte>, i: int) -> int {
    (count_below(s, s[i], s.len() as int) + rank(s, i)) as int
}

/// The bytes met on the walk from row `i` to the row that holds the marker,
/// the byte met first standing last. `None` when `fuel` rows do not reach the
/// marker.
pub open spec fn lf_walk(t: Seq<BWTByte>, i: int, fuel: nat) -> Option<Seq<u8>>
    decreases fuel,
{
    if fuel == 0 || !(0 <= i < t.len()) {
        None
    } else {
        match t[i] {
            BWTByte::Sentinel => Some(Seq::empty()),
            BWTByte::Byte(b) => match lf_walk(t, lf(t, i), (fuel - 1) as nat) {
                Some(x) => Some(x.push(b)),
                None => None,
            },
        }
    }
}

/// The inverse transform of the last column `t`: the walk from row 0, which
/// must pass every row but that of the marker.
pub open spec fn inverse(t: Seq<BWTByte>) -> Option<Seq<u8>> {
    match lf_walk(t, 0, t.len()) {
        Some(x) => if x.len() + 1 == t.len() {
            Some(x)
        } else {
            None
        },
        None => None,
    }
}

/// `x` followed by `tail`, where there is an `x`.
pub open spec fn followed_by(x: Option<Seq<u8>>, tail: Seq<u8>) -> Option<Seq<u8>> {
    match x {
        Some(x) => Some(x + tail),
        None => None,
    }
}

/// A symbol and the symbols before it are no more than there are positions.
pub proof fn lemma_counts_bounded(s: Seq<BWTByte>, b: BWTByte, n: int)
    requires
        0 <= n,
    ensures
        count_below(s, b, n) + count_eq(s, b, n) <= n,
    decreases n,
{
    if n > 0 {
        lemma_counts_bounded(s, b, n - 1);
    }
}

/// A longer prefix holds a symbol at least as often.
pub proof fn lemma_count_eq_monotone(s: Seq<BWTByte>, b: BWTByte, i: int, n: int)
    requires
        0 <= i <= n,
    ensures
        count_eq(s, b, i) <= count_eq(s, b, n),
    decreases n - i,
{
    if i < n {
        lemma_count_eq_monotone(s, b, i, n - 1);
    }
}

/// The mapping stays within the rows.
pub proof fn lemma_lf_in_range(s: Seq<BWTByte>, i: int)
    requires
        0 <= i < s.len(),
    ensures
        0 <= lf(s, i) < s.len(),
{
    let n = s.len() as int;
    lemma_counts_bounded(s, s[i], n);
    lemma_count_eq_monotone(s, s[i], i + 1, n);
}

/// A byte one above `b` has below it what `b` has below it, and the
/// occurrences of `b`.
pub proof fn lemma_count_below_next(s: Seq<BWTByte>, b: u8, n: int)
    requires
        b < 255,
    ensures
        count_below(s, BWTByte::Byte((b + 1) as u8), n) == count_below(s, BWTByte::Byte(b), n)
            + count_eq(s, BWTByte::Byte(b), n),
    decreases n,
{
    if n > 0 {
        lemma_count_below_next(s, b, n - 1);
    }
}

/// Below the byte 0 stands the marker alone.
pub proof fn lemma_count_below_zero(s: Seq<BWTByte>, n: int)
    ensures
        count_below(s, BWTByte::Byte(0), n) == count_eq(s, BWTByte::Sentinel, n),
        count_below(s, BWTByte::Sentinel, n) == 0,
    decreases n,
{
    if n > 0 {
        lemma_count_below_zero(s, n - 1);
    }
}

/// A sequence holds its marker once, at its place.
pub proof fn lemma_sentinel_count(x: &BWTStr, n: int)
    requires
        x.wf(),
        0 <= n <= x@.len(),
    ensures
        count_eq(x@, BWTByte::Sentinel, n) == if n <= x.marker() {
            0nat
        } else {
            1nat
        },
    decreases n,
{
    if n > 0 {
        lemma_sentinel_count(x, n - 1);
    }
}

/// A symbol that occurs more than `q` times has an occurrence of rank `q`.
pub proof fn lemma_occurrence_exists(s: Seq<BWTByte>, b: BWTByte, q: int, n: int)
    requires
        0 <= q < count_eq(s, b, n),
    ensures
        exists|i: int| 0 <= i < n && s[i] == b && #[trigger] count_eq(s, b, i) == q,
    decreases n,
{
    if n > 0 {
        if s[n - 1] == b && count_eq(s, b, n - 1) == q {
        } else {
            lemma_occurrence_exists(s, b, q, n - 1);
        }
    }
}

/// Every symbol is the byte 255 or stands before it.
pub proof fn lemma_count_below_top(s: Seq<BWTByte>, n: int)
    requires
        0 <= n,
    ensures
        count_below(s, BWTByte::Byte(255), n) + count_eq(s, BWTByte::Byte(255), n) == n,
    decreases n,
{
    if n > 0 {
        lemma_count_below_top(s, n - 1);
    }
}

/// `left` holds the symbols of `t` in ascending order: the marker first, then
/// for each byte a block of rows as long as the byte is frequent in `t`,
/// which begins after the rows of all smaller symbols.
pub open spec fn is_sorted_column(left: Seq<BWTByte>, t: Seq<BWTByte>) -> bool {
    &&& left.len() == t.len()
    &&& left[0] == BWTByte::Sentinel
    &&& forall|b: u8, r: int| #[trigger] in_block(t, b, r) ==> left[r] == BWTByte::Byte(b)
}

/// Row `r` lies in the block of the byte `b`: after the rows of all symbols
/// of `t` that are smaller, and among as many rows as `b` occurs in `t`.
pub open spec fn in_block(t: Seq<BWTByte>, b: u8, r: int) -> bool {
    count_below(t, BWTByte::Byte(b), t.len() as int) <= r < count_below(
        t,
        BWTByte::Byte(b),
        t.len() as int,
    ) + count_eq(t, BWTByte::Byte(b), t.len() as int)
}

/// The mapping leads from an occurrence of a symbol in the last column to
/// the same occurrence in the sorted first column.
pub proof fn lemma_lf_finds_symbol(x: &BWTStr, left: Seq<BWTByte>, i: int)
    requires
        x.wf(),
        is_sorted_column(left, x@),
        0 <= i < x@.len(),
    ensures
        left[lf(x@, i)] == x@[i],
{
    let t = x@;
    let n = t.len() as int;
    lemma_count_eq_monotone(t, t[i], i + 1, n);
    match t[i] {
        BWTByte::Sentinel => {
            lemma_sentinel_count(x, i);
            lemma_count_below_zero(t, n);
        },
        BWTByte::Byte(b) => {
            assert(in_block(t, b, lf(t, i)));
        },
    }
}

impl BWTStr {
    /// The symbols in ascending order, the marker first.
    pub fn as_sorted(&self) -> (out: Self)
        requires
            self.wf(),
        ensures
            out.wf(),
            out.marker() == 0,
            is_sorted_column(out@, self@),
            forall|q1: int, q2: int|
                0 <= q1 <= q2 < out.payload().len() ==> out.payload()[q1] <= out.payload()[q2],
    {
        let n = self.len();
        let ghost s = self@;
        let totals = self.occurrence_scan().1;
        let mut bytes: Vec<u8> = Vec::new();
        let mut c: usize = 0;
        proof {
            lemma_sentinel_count(self, n as int);
            lemma_count_below_zero(s, n as int);
        }
        while c < 256
            invariant
                self.wf(),
                s == self@,
                n == s.len(),
                c <= 256,
                totals.len() == 256,
                forall|b: u8| #[trigger] totals@[b as int] == count_eq(s, BWTByte::Byte(b), n as int),
                c < 256 ==> bytes.len() + 1 == count_below(s, BWTByte::Byte(c as u8), n as int),
                c == 256 ==> bytes.len() + 1 == n,
                forall|q: int| 0 <= q < bytes.len() ==> #[trigger] bytes@[q] < c,
                forall|q1: int, q2: int| 0 <= q1 <= q2 < bytes.len() ==> bytes@[q1] <= bytes@[q2],
                forall|b: u8, r: int|
                    b < c && #[trigger] in_block(s, b, r) ==> 0 < r <= bytes.len() && bytes@[r
                        - 1] == b,
            decreases 256 - c,
        {
            let total = totals[c];
            let ghost before = bytes@;
            assert(total == count_eq(s, BWTByte::Byte(c as u8), n as int));
            let mut j: usize = 0;
            while j < total
                invariant
                    j <= total,
                    c < 256,
                    bytes.len() == before.len() + j,
                    bytes@.subrange(0, before.len() as int) == before,
                    forall|q: int| before.len() <= q < bytes.len() ==> #[trigger] bytes@[q] == c,
                decreases total - j,
            {
                bytes.push(c as u8);
                j += 1;
                assert(bytes@.subrange(0, before.len() as int) =~= before);
            }
            proof {
                assert forall|q: int| 0 <= q < before.len() implies #[trigger] bytes@[q]
                    == before[q] by {
                    assert(bytes@.subrange(0, before.len() as int)[q] == bytes@[q]);
                }
                if c < 255 {
                    lemma_count_below_next(s, c as u8, n as int);
                } else {
                    lemma_count_below_top(s, n as int);
                }
                assert forall|b: u8, r: int| b < c + 1 && #[trigger] in_block(s, b, r) implies 0
                    < r <= bytes.len() && bytes@[r - 1] == b by {
                    if b < c {
                        assert(0 < r <= before.len() && before[r - 1] == b);
                    }
                }
            }
            c += 1;
        }
        let out = BWTStr::new_with_sentinal(bytes, 0);
        assert forall|b: u8, r: int| #[trigger] in_block(s, b, r) implies out@[r] == BWTByte::Byte(
            b,
        ) by {
            assert(0 < r <= bytes.len() && bytes@[r - 1] == b);
        }
        out
    }

    /// The rank of every position, and how often each byte occurs in all.
    fn occurrence_scan(&self) -> (res: (Vec<usize>, Vec<usize>))
        requires
            self.wf(),
        ensures
            res.0.len() == self@.len(),
            forall|i: int| 0 <= i < self@.len() ==> #[trigger] res.0@[i] == rank(self@, i),
            res.1.len() == 256,
            forall|b: u8| #[trigger]
                res.1@[b as int] == count_eq(self@, BWTByte::Byte(b), self@.len() as int),
    {
        let n = self.len();
        let ghost s = self@;
        let mut occ: Vec<usize> = Vec::new();
        while occ.len() < 256
            invariant
                occ.len() <= 256,
                forall|j: int| 0 <= j < occ.len() ==> #[trigger] occ@[j] == 0,
            decreases 256 - occ.len(),
        {
            occ.push(0);
        }
        let mut ranks: Vec<usize> = Vec::with_capacity(n);
        let mut i: usize = 0;
        while i < n
            invariant
                self.wf(),
                s == self@,
                n == s.len(),
                i <= n,
                ranks.len() == i,
                occ.len() == 256,
                forall|j: int| 0 <= j < i ==> #[trigger] ranks@[j] == rank(s, j),
                forall|b: u8| #[trigger] occ@[b as int] == count_eq(s, BWTByte::Byte(b), i as int),
                forall|b: u8| #[trigger] occ@[b as int] <= i,
            decreases n - i,
        {
            let ghost before = occ@;
            match self.symbol(i) {
                BWTByte::Sentinel => {
                    proof {
                        lemma_sentinel_count(self, i as int);
                    }
                    ranks.push(0);
                },
                BWTByte::Byte(c) => {
                    let seen = occ[c as usize];
                    ranks.push(seen);
                    occ.set(c as usize, seen + 1);
                },
            }
            proof {
                assert forall|b: u8| #[trigger]
                    occ@[b as int] == count_eq(s, BWTByte::Byte(b), i + 1) && occ@[b as int] <= i
                        + 1 by {
                    assert(before[b as int] == count_eq(s, BWTByte::Byte(b), i as int));
                    assert(before[b as int] <= i);
                }
            }
            i += 1;
        }
        (ranks, occ)
    }

    /// The rank of every position: how often its symbol occurs before it. The
    /// marker occurs once, so its rank is 0.
    pub fn rank_vec(&self) -> (ranks: Vec<usize>)
        requires
            self.wf(),
        ensures
            ranks.len() == self@.len(),
            forall|i: int| 0 <= i < self@.len() ==> #[trigger] ranks@[i] == rank(self@, i),
    {
        self.occurrence_scan().0
    }

    /// For each byte, the row at which it begins in the sorted first column.
    fn first_rows(&self, totals: &Vec<usize>) -> (starts: Vec<usize>)
        requires
            self.wf(),
            totals.len() == 256,
            forall|b: u8| #[trigger]
                totals@[b as int] == count_eq(self@, BWTByte::Byte(b), self@.len() as int),
        ensures
            starts.len() == 256,
            forall|b: u8| #[trigger]
                starts@[b as int] == count_below(self@, BWTByte::Byte(b), self@.len() as int),
    {
        let ghost s = self@;
        let ghost n = s.len() as int;
        let mut starts: Vec<usize> = Vec::with_capacity(256);
        proof {
            lemma_sentinel_count(self, n);
            lemma_count_below_zero(s, n);
        }
        starts.push(1);
        let mut c: u8 = 0;
        while c < 255
            invariant
                self.wf(),
                s == self@,
                n == s.len(),
                totals.len() == 256,
                forall|b: u8| #[trigger] totals@[b as int] == count_eq(s, BWTByte::Byte(b), n),
                starts.len() == c + 1,
                forall|b: u8| b <= c ==> #[trigger] starts@[b as int] == count_below(
                    s,
                    BWTByte::Byte(b),
                    n,
                ),
            decreases 255 - c,
        {
            proof {
                lemma_count_below_next(s, c, n);
                lemma_counts_bounded(s, BWTByte::Byte(c), n);
                assert(totals@[c as int] == count_eq(s, BWTByte::Byte(c), n));
                assert(starts@[c as int] == count_below(s, BWTByte::Byte(c), n));
            }
            let next = starts[c as usize] + totals[c as usize];
            starts.push(next);
            c += 1;
        }
        starts
    }

    /// The inverse transform. Walks the last-to-first mapping from row 0, the
    /// row whose first symbol is the marker, and puts each byte met in front of
    /// those met before. Fails when the walk ends before it has passed every
    /// row, which no transform of a sequence allows.
    pub fn reverse_transform(&self) -> (out: Result<BWTStr, BwtError>)
        requires
            self.wf(),
        ensures
            match out {
                Ok(o) => o.wf() && inverse(self@) == Some(o.payload()) && o.marker()
                    == o.payload().len(),
                Err(e) => e == BwtError::Validation && inverse(self@).is_none(),
            },
    {
        let n = self.len();
        let ghost s = self@;
        let (ranks, totals) = self.occurrence_scan();
        let starts = self.first_rows(&totals);
        let mut acc: Vec<u8> = Vec::new();
        let mut i: usize = 0;
        let mut steps: usize = 0;
        while steps < n
            invariant
                self.wf(),
                s == self@,
                n == s.len(),
                i < n,
                steps <= n,
                acc.len() == steps,
                ranks.len() == n,
                forall|j: int| 0 <= j < n ==> #[trigger] ranks@[j] == rank(s, j),
                starts.len() == 256,
                forall|b: u8| #[trigger]
                    starts@[b as int] == count_below(s, BWTByte::Byte(b), n as int),
                lf_walk(s, 0, n as nat) == followed_by(
                    lf_walk(s, i as int, (n - steps) as nat),
                    acc@,
                ),
            decreases n - steps,
        {
            match self.symbol(i) {
                BWTByte::Sentinel => {
                    assert(lf_walk(s, i as int, (n - steps) as nat) == Some(Seq::<u8>::empty()));
                    assert(Seq::<u8>::empty() + acc@ =~= acc@);
                    if steps + 1 == n {
                        return Ok(BWTStr::new(acc));
                    } else {
                        return Err(BwtError::Validation);
                    }
                },
                BWTByte::Byte(b) => {
                    proof {
                        lemma_lf_in_range(s, i as int);
                        assert(ranks@[i as int] == rank(s, i as int));
                        assert(starts@[b as int] == count_below(s, BWTByte::Byte(b), n as int));
                        let rest = lf_walk(s, lf(s, i as int), (n - steps - 1) as nat);
                        if rest.is_some() {
                            assert(rest.unwrap().push(b) + acc@ =~= rest.unwrap() + acc@.insert(
                                0,
                                b,
                            ));
                        }
                    }
                    let next = starts[b as usize] + ranks[i];
                    acc.insert(0, b);
                    i = next;
                    steps += 1;
                },
            }
        }
        Err(BwtError::Validation)
    }
}

} // verus!
