//! The immutable configuration of a FRI instance.

use vstd::prelude::*;
use vstd::arithmetic::power2::pow2;
use crate::bits::pow2_usize;

verus! {

/// The configuration of a FRI instance: the rate's inverse exponent, the
/// size exponent of the final polynomial, the number of queries and the
/// proof-of-work cost. The commitment capability itself carries no state
/// here, so no handle to it is kept.
#[derive(Clone, Copy, PartialEq, Eq, Structural, Debug)]
pub struct FriConfig {
    pub log_blowup: usize,
    pub log_final_poly_len: usize,
    pub num_queries: usize,
    pub proof_of_work_bits: usize,
}

impl FriConfig {
    pub open spec fn wf(self) -> bool {
        &&& 1 <= self.log_blowup
        &&& self.log_blowup + self.log_final_poly_len < 27
        &&& self.num_queries >= 1
        &&& self.proof_of_work_bits < 30
    }

    /// The blowup factor: the committed domain is this many times larger
    /// than the polynomial's degree bound.
    pub fn blowup(&self) -> (r: usize)
        requires
            self.wf(),
        ensures
            r == pow2(self.log_blowup as nat),
    {
        pow2_usize(self.log_blowup)
    }

    /// The length of the fully folded final polynomial.
    pub fn final_poly_len(&self) -> (r: usize)
        requires
            self.wf(),
        ensures
            r == pow2(self.log_final_poly_len as nat),
    {
        pow2_usize(self.log_final_poly_len)
    }
}

} // verus!
