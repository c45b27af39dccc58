//! Pieces of the constraint layer above the commitment scheme that are
//! plain data and arithmetic: the single-row public-value matrix, and the
//! quotient-degree computation.

use vstd::prelude::*;
use vstd::arithmetic::power2::{lemma2_to64, lemma_pow2_pos, lemma_pow2_unfold, pow2};

verus! {

/// Public values seen as a matrix with one row, repeated as often as a
/// consumer asks.
#[derive(Clone, Debug)]
pub struct PublicRow<T>(pub Vec<T>);

impl<T> PublicRow<T> {
    pub fn width(&self) -> (r: usize)
        ensures
            r == self.0@.len(),
    {
        self.0.len()
    }

    pub fn height(&self) -> (r: usize)
        ensures
            r == 1,
    {
        1
    }

    /// Every row reads the same values.
    pub fn row(&self, _r: usize) -> (out: &Vec<T>)
        ensures
            out@ == self.0@,
    {
        &self.0
    }
}

impl PublicRow<crate::field::Fp> {
    /// A single-row matrix interpolates to its own values at every
    /// point: the row is handed back, embedded into the extension, once
    /// per requested point.
    pub fn interpolate(&self, points: &Vec<crate::ext::Ext>) -> (r: Vec<Vec<crate::ext::Ext>>)
        requires
            forall|c: int| 0 <= c < self.0@.len() ==> (#[trigger] self.0@[c]).wf(),
        ensures
            r@.len() == points@.len(),
            forall|p: int| 0 <= p < r@.len() ==> (#[trigger] r@[p])@.len() == self.0@.len(),
            forall|p: int, c: int|
                0 <= p < r@.len() && 0 <= c < self.0@.len() ==> (#[trigger] r@[p]@[c])@
                    == crate::ext::efrom(self.0@[c]@),
    {
        let mut r: Vec<Vec<crate::ext::Ext>> = Vec::new();
        let mut p: usize = 0;
        while p < points.len()
            invariant
                forall|c: int| 0 <= c < self.0@.len() ==> (#[trigger] self.0@[c]).wf(),
                p <= points@.len(),
                r@.len() == p,
                forall|t: int| 0 <= t < p ==> (#[trigger] r@[t])@.len() == self.0@.len(),
                forall|t: int, c: int|
                    0 <= t < p && 0 <= c < self.0@.len() ==> (#[trigger] r@[t]@[c])@
                        == crate::ext::efrom(self.0@[c]@),
            decreases points@.len() - p,
        {
            let mut row: Vec<crate::ext::Ext> = Vec::new();
            let mut c: usize = 0;
            while c < self.0.len()
                invariant
                    forall|t: int| 0 <= t < self.0@.len() ==> (#[trigger] self.0@[t]).wf(),
                    c <= self.0@.len(),
                    row@.len() == c,
                    forall|t: int|
                        0 <= t < c ==> (#[trigger] row@[t])@ == crate::ext::efrom(self.0@[t]@),
                decreases self.0@.len() - c,
            {
                let e = crate::ext::Ext::from_base(self.0[c]);
                row.push(e);
                c = c + 1;
            }
            r.push(row);
            p = p + 1;
        }
        r
    }
}

/// The least exponent whose power of two reaches `n`.
pub fn log2_ceil_usize(n: usize) -> (r: usize)
    requires
        n <= 0x2000_0000,
    ensures
        pow2(r as nat) >= n,
        r > 0 ==> pow2((r - 1) as nat) < n,
        r <= 30,
{
    let mut r: usize = 0;
    let mut p: usize = 1;
    proof {
        assert(pow2(0) == 1) by {
            lemma2_to64();
        };
    }
    while p < n
        invariant
            n <= 0x2000_0000,
            p >= 1,
            p == pow2(r as nat),
            r > 0 ==> pow2((r - 1) as nat) < n,
            r <= 30,
            r == 30 ==> p >= n,
        decreases 30 - r,
    {
        proof {
            lemma_pow2_unfold((r + 1) as nat);
            assert(pow2(30) == 0x4000_0000) by {
                lemma2_to64();
                vstd::arithmetic::power2::lemma2_to64_rest();
            };
            if r + 1 > 30 {
                assert(false);
            }
            if r + 1 == 30 {
                assert(pow2((r + 1) as nat) >= n);
            }
        }
        p = p * 2;
        r = r + 1;
    }
    r
}

/// The size exponent of the quotient domain for a given largest
/// constraint degree: the quotient's degree is about one less than the
/// constraint degree (the vanishing polynomial divides one power out),
/// padded up to at least two and rounded to a power of two.
pub fn log_quotient_degree(constraint_degree: usize) -> (r: usize)
    requires
        constraint_degree <= 0x2000_0000,
    ensures
        pow2(r as nat) >= (if constraint_degree >= 2 {
            constraint_degree - 1
        } else {
            1
        }),
        r > 0 ==> pow2((r - 1) as nat) < (if constraint_degree >= 2 {
            constraint_degree - 1
        } else {
            1
        }),
        r <= 30,
{
    let padded = if constraint_degree < 2 {
        2
    } else {
        constraint_degree
    };
    log2_ceil_usize(padded - 1)
}

} // verus!
