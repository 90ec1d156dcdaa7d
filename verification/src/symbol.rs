//! The alphabet: a byte, or the end marker that sorts below every byte.

use std::cmp::Ordering;
use vstd::prelude::*;

verus! {

/// One symbol of a sequence under transformation. The variants stand in
/// the order of the alphabet.
#[derive(Debug, Clone, Copy, PartialEq, Eq, Ord, Structural)]
pub enum BWTByte {
    Sentinel,
    Byte(u8),
}

impl BWTByte {
    /// The position of a symbol in the alphabet's order: the marker stands at
    /// -1, a byte at its unsigned value.
    pub open spec fn key(self) -> int {
        match self {
            BWTByte::Sentinel => -1,
            BWTByte::Byte(b) => b as int,
        }
    }

    /// Strict order of the alphabet.
    pub open spec fn precedes(self, other: BWTByte) -> bool {
        self.key() < other.key()
    }

    /// Whether the symbol is the end marker.
    pub fn is_sentinel(&self) -> (r: bool)
        ensures
            r == (*self == BWTByte::Sentinel),
    {
        match self {
            BWTByte::Byte(_) => false,
            BWTByte::Sentinel => true,
        }
    }

    /// Whether the symbol is a byte on which `predicate` holds.
    pub fn is_byte_and<P: FnOnce(&u8) -> bool>(&self, predicate: P) -> (r: bool)
        requires
            forall|b: u8| *self == BWTByte::Byte(b) ==> predicate.requires((&b,)),
        ensures
            *self == BWTByte::Sentinel ==> !r,
            forall|b: u8| *self == BWTByte::Byte(b) ==> predicate.ensures((&b,), r),
    {
        match self {
            BWTByte::Sentinel => false,
            BWTByte::Byte(b) => predicate(b),
        }
    }

    /// Whether `self` stands strictly before `other` in the alphabet.
    pub fn is_before(&self, other: &BWTByte) -> (r: bool)
        ensures
            r == self.precedes(*other),
    {
        match (self, other) {
            (BWTByte::Sentinel, BWTByte::Sentinel) => false,
            (BWTByte::Sentinel, BWTByte::Byte(_)) => true,
            (BWTByte::Byte(_), BWTByte::Sentinel) => false,
            (BWTByte::Byte(a), BWTByte::Byte(b)) => *a < *b,
        }
    }
}

impl PartialOrd for BWTByte {
    /// The order of the alphabet: the marker before every byte, bytes by
    /// their unsigned value.
    fn partial_cmp(&self, other: &Self) -> (r: Option<Ordering>) {
        Some(
            match (self, other) {
                (BWTByte::Sentinel, BWTByte::Sentinel) => Ordering::Equal,
                (BWTByte::Sentinel, BWTByte::Byte(_)) => Ordering::Less,
                (BWTByte::Byte(_), BWTByte::Sentinel) => Ordering::Greater,
                (BWTByte::Byte(a), BWTByte::Byte(b)) => {
                    if *a < *b {
                        Ordering::Less
                    } else if *a > *b {
                        Ordering::Greater
                    } else {
                        Ordering::Equal
                    }
                },
            },
        )
    }
}

impl vstd::std_specs::cmp::PartialOrdSpecImpl for BWTByte {
    open spec fn obeys_partial_cmp_spec() -> bool {
        true
    }

    open spec fn partial_cmp_spec(&self, other: &Self) -> Option<Ordering> {
        if self.precedes(*other) {
            Some(Ordering::Less)
        } else if other.precedes(*self) {
            Some(Ordering::Greater)
        } else {
            Some(Ordering::Equal)
        }
    }
}

} // verus!
