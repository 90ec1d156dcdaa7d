//! A symbol sequence with exactly one end marker.

use crate::error::BwtError;
use crate::rotation::rotation;
use crate::symbol::BWTByte;
use vstd::prelude::*;

verus! {

/// A sequence of bytes with one end marker in it. The bytes are stored without
/// the marker; `sentinel_index` is the place of the marker among them.
#[derive(Debug, Clone)]
pub struct BWTStr {
    bytes: Vec<u8>,
    sentinel_index: usize,
}

impl View for BWTStr {
    type V = Seq<BWTByte>;

    /// The symbols in order, the marker at its place.
    open spec fn view(&self) -> Seq<BWTByte> {
        with_sentinel(self.payload(), self.marker())
    }
}

/// `bytes` with the marker put in at position `at`.
pub open spec fn with_sentinel(bytes: Seq<u8>, at: int) -> Seq<BWTByte> {
    Seq::new(
        bytes.len() + 1,
        |j: int|
            if j < at {
                BWTByte::Byte(bytes[j])
            } else if j == at {
                BWTByte::Sentinel
            } else {
                BWTByte::Byte(bytes[j - 1])
            },
    )
}

impl BWTStr {
    /// The stored bytes, without the marker.
    pub closed spec fn payload(&self) -> Seq<u8> {
        self.bytes@
    }

    /// The place of the marker.
    pub closed spec fn marker(&self) -> int {
        self.sentinel_index as int
    }

    /// The marker lies within the sequence, and the symbol count fits a `usize`.
    pub open spec fn wf(&self) -> bool {
        0 <= self.marker() <= self.payload().len() < usize::MAX
    }

    /// `inner` followed by the marker.
    pub fn new(inner: Vec<u8>) -> (s: Self)
        requires
            inner.len() < usize::MAX,
        ensures
            s.wf(),
            s.payload() == inner@,
            s.marker() == inner.len(),
            s@ == inner@.map_values(|b: u8| BWTByte::Byte(b)).push(BWTByte::Sentinel),
    {
        let at = inner.len();
        let s = BWTStr { bytes: inner, sentinel_index: at };
        assert(s@ =~= inner@.map_values(|b: u8| BWTByte::Byte(b)).push(BWTByte::Sentinel));
        s
    }

    /// `inner` with the marker put in before position `sentinal_index`.
    pub fn new_with_sentinal(inner: Vec<u8>, sentinal_index: usize) -> (s: Self)
        requires
            sentinal_index <= inner.len(),
            inner.len() < usize::MAX,
        ensures
            s.wf(),
            s.payload() == inner@,
            s.marker() == sentinal_index,
            s@ == inner@.map_values(|b: u8| BWTByte::Byte(b)).insert(
                sentinal_index as int,
                BWTByte::Sentinel,
            ),
    {
        let s = BWTStr { bytes: inner, sentinel_index: sentinal_index };
        assert(s@ =~= inner@.map_values(|b: u8| BWTByte::Byte(b)).insert(
            sentinal_index as int,
            BWTByte::Sentinel,
        ));
        s
    }

    /// `inner` with the marker put in before position `at`, where there is
    /// such a position; a validation error where `at` lies behind the end of
    /// `inner`, or `inner` is too long for the marker to be counted with it.
    pub fn try_with_sentinel(inner: Vec<u8>, at: usize) -> (out: Result<Self, BwtError>)
        ensures
            match out {
                Ok(s) => at <= inner.len() < usize::MAX && s.wf() && s.payload() == inner@
                    && s.marker() == at,
                Err(e) => e == BwtError::Validation && !(at <= inner.len() < usize::MAX),
            },
    {
        if at > inner.len() || inner.len() == usize::MAX {
            Err(BwtError::Validation)
        } else {
            Ok(BWTStr::new_with_sentinal(inner, at))
        }
    }

    /// The number of symbols, the marker included.
    pub fn len(&self) -> (n: usize)
        requires
            self.wf(),
        ensures
            n == self@.len(),
            n == self.payload().len() + 1,
    {
        self.bytes.len() + 1
    }

    /// The place of the marker.
    pub fn sentinel_index(&self) -> (at: usize)
        ensures
            at == self.marker(),
    {
        self.sentinel_index
    }

    /// The bytes without the marker.
    pub fn to_bytes(&self) -> (out: Vec<u8>)
        ensures
            out@ == self.payload(),
    {
        self.bytes.clone()
    }

    /// The symbol at position `i`.
    pub fn symbol(&self, i: usize) -> (b: BWTByte)
        requires
            self.wf(),
            i < self@.len(),
        ensures
            b == self@[i as int],
    {
        if i < self.sentinel_index {
            BWTByte::Byte(self.bytes[i])
        } else if i == self.sentinel_index {
            BWTByte::Sentinel
        } else {
            BWTByte::Byte(self.bytes[i - 1])
        }
    }

    /// A second sequence with the same symbols.
    pub fn duplicate(&self) -> (c: Self)
        ensures
            c.payload() == self.payload(),
            c.marker() == self.marker(),
            c@ == self@,
    {
        BWTStr { bytes: self.bytes.clone(), sentinel_index: self.sentinel_index }
    }

    /// Rotates the sequence left by one: the first symbol moves to the end,
    /// and the marker one place towards the front, or from the front to the
    /// end.
    pub fn rotate(&mut self)
        requires
            old(self).wf(),
        ensures
            final(self).wf(),
            final(self)@ == rotation(old(self)@, 1),
            final(self).marker() == if old(self).marker() == 0 {
                old(self)@.len() - 1
            } else {
                old(self).marker() - 1
            },
    {
        if self.sentinel_index == 0 {
            self.sentinel_index = self.bytes.len();
        } else {
            let front = self.bytes.remove(0);
            self.bytes.push(front);
            self.sentinel_index = self.sentinel_index - 1;
        }
        assert(self@ =~= rotation(old(self)@, 1));
    }

    /// All rotations of the sequence, as many as it has symbols: at index `k`
    /// the sequence rotated left `k` times.
    pub fn all_rotations(&self) -> (rotations: Vec<BWTStr>)
        requires
            self.wf(),
        ensures
            rotations.len() == self@.len(),
            forall|k: int|
                0 <= k < rotations.len() ==> (#[trigger] rotations@[k]).wf() && rotations@[k]@
                    == rotation(self@, k),
    {
        let n = self.len();
        let mut rotations: Vec<BWTStr> = Vec::new();
        let mut cur = self.duplicate();
        assert(cur@ =~= rotation(self@, 0));
        let mut k: usize = 0;
        while k < n
            invariant
                self.wf(),
                cur.wf(),
                n == self@.len(),
                k <= n,
                rotations.len() == k,
                k < n ==> cur@ == rotation(self@, k as int),
                forall|j: int|
                    0 <= j < k ==> (#[trigger] rotations@[j]).wf() && rotations@[j]@ == rotation(
                        self@,
                        j,
                    ),
            decreases n - k,
        {
            rotations.push(cur.duplicate());
            let ghost before = cur@;
            cur.rotate();
            k += 1;
            if k < n {
                assert(rotation(before, 1) =~= rotation(self@, k as int));
            }
        }
        rotations
    }
}

} // verus!
