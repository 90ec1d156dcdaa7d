//! A sequence written out for reading: its symbols in decimal, separated by
//! a comma and a space, the end marker as `$`.

use crate::bwtstring::BWTStr;
use crate::symbol::BWTByte;
use vstd::prelude::*;

verus! {

/// The decimal digits of `b` in ASCII, without leading zeros.
pub open spec fn decimal(b: u8) -> Seq<u8> {
    if b < 10 {
        seq![(48 + b) as u8]
    } else if b < 100 {
        seq![(48 + b / 10) as u8, (48 + b % 10) as u8]
    } else {
        seq![(48 + b / 100) as u8, (48 + b / 10 % 10) as u8, (48 + b % 10) as u8]
    }
}

/// One symbol in ASCII: a byte in decimal, the marker as `$`.
pub open spec fn symbol_text(b: BWTByte) -> Seq<u8> {
    match b {
        BWTByte::Sentinel => seq![36u8],
        BWTByte::Byte(v) => decimal(v),
    }
}

/// The first `n` symbols of `s` in ASCII, a comma and a space between two
/// of them.
pub open spec fn rendering(s: Seq<BWTByte>, n: int) -> Seq<u8>
    decreases n,
{
    if n <= 0 {
        Seq::empty()
    } else if n == 1 {
        symbol_text(s[0])
    } else {
        rendering(s, n - 1) + seq![44u8, 32u8] + symbol_text(s[n - 1])
    }
}

/// Appends the decimal digits of `b` to `out`.
fn push_decimal(b: u8, out: &mut Vec<u8>)
    ensures
        final(out)@ == old(out)@ + decimal(b),
{
    let ghost before = out@;
    if b >= 100 {
        out.push(48 + b / 100);
    }
    if b >= 10 {
        out.push(48 + b / 10 % 10);
    }
    out.push(48 + b % 10);
    assert(out@ =~= before + decimal(b));
}

impl BWTStr {
    /// The sequence in ASCII: every symbol in order, a byte in decimal, the
    /// marker as `$`, a comma and a space between two of them.
    pub fn to_text(&self) -> (out: Vec<u8>)
        requires
            self.wf(),
        ensures
            out@ == rendering(self@, self@.len() as int),
    {
        let n = self.len();
        let mut out: Vec<u8> = Vec::new();
        let mut i: usize = 0;
        while i < n
            invariant
                self.wf(),
                n == self@.len(),
                i <= n,
                out@ == rendering(self@, i as int),
            decreases n - i,
        {
            let ghost before = out@;
            if i > 0 {
                out.push(44);
                out.push(32);
            }
            let ghost mid = out@;
            match self.symbol(i) {
                BWTByte::Sentinel => {
                    out.push(36);
                },
                BWTByte::Byte(b) => {
                    push_decimal(b, &mut out);
                },
            }
            assert(out@ =~= mid + symbol_text(self@[i as int]));
            if i > 0 {
                assert(mid =~= before + seq![44u8, 32u8]);
            } else {
                assert(mid + symbol_text(self@[0]) =~= symbol_text(self@[0]));
            }
            i += 1;
        }
        out
    }
}

} // verus!
