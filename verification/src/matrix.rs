//! Dense row-major matrices of base-field values.

use vstd::prelude::*;
use vstd::arithmetic::div_mod::lemma_fundamental_div_mod;
use vstd::arithmetic::mul::{
    lemma_mul_inequality, lemma_mul_is_commutative, lemma_mul_is_distributive_sub_other_way,
};
use crate::field::Fp;

verus! {

/// Row index times width plus column index stays inside the matrix.
pub proof fn lemma_rc_index(w: int, h: int, r: int, c: int)
    requires
        w >= 1,
        0 <= c < w,
        0 <= r < h,
    ensures
        0 <= r * w + c < w * h,
{
    lemma_mul_inequality(r, h - 1, w);
    lemma_mul_is_distributive_sub_other_way(w, h, 1);
    lemma_mul_is_commutative(w, h);
    lemma_mul_is_commutative(w, r);
}

/// A dense matrix of base-field values, stored row by row.
#[derive(Clone, Debug)]
#[verifier::ext_equal]
pub struct FpMat {
    pub values: Vec<Fp>,
    pub width: usize,
}

impl FpMat {
    pub open spec fn wf(self) -> bool {
        &&& self.width >= 1
        &&& self.values@.len() % (self.width as nat) == 0
        &&& forall|i: int| 0 <= i < self.values@.len() ==> (#[trigger] self.values@[i]).wf()
    }

    /// The number of rows.
    pub open spec fn h(self) -> int {
        self.values@.len() as int / self.width as int
    }

    /// The entry in row `r`, column `c`.
    pub open spec fn entry(self, r: int, c: int) -> Fp {
        self.values@[r * self.width as int + c]
    }

    /// The entry in row `r`, column `c`, as its field value.
    pub open spec fn at(self, r: int, c: int) -> int {
        self.values@[r * self.width as int + c]@
    }

    /// A well-formed matrix holds exactly `width * h` values.
    pub proof fn lemma_size(self)
        requires
            self.wf(),
        ensures
            self.values@.len() == self.width as int * self.h(),
    {
        lemma_fundamental_div_mod(self.values@.len() as int, self.width as int);
    }

    pub fn new(values: Vec<Fp>, width: usize) -> (r: FpMat)
        requires
            width >= 1,
            values@.len() % (width as nat) == 0,
            forall|i: int| 0 <= i < values@.len() ==> (#[trigger] values@[i]).wf(),
        ensures
            r.wf(),
            r.values@ == values@,
            r.width == width,
    {
        FpMat { values, width }
    }

    pub fn height(&self) -> (r: usize)
        requires
            self.wf(),
        ensures
            r == self.h(),
    {
        self.values.len() / self.width
    }

    pub fn width(&self) -> (r: usize)
        ensures
            r == self.width,
    {
        self.width
    }

    /// Reads one entry.
    pub fn get(&self, r: usize, c: usize) -> (out: Fp)
        requires
            self.wf(),
            r < self.h(),
            c < self.width,
        ensures
            out.wf(),
            out == self.entry(r as int, c as int),
            out@ == self.at(r as int, c as int),
    {
        let n = self.values.len();
        proof {
            self.lemma_size();
            lemma_rc_index(self.width as int, self.h(), r as int, c as int);
            assert((r as int) * (self.width as int) + (c as int) < n);
        }
        self.values[r * self.width + c]
    }

    /// Copies one row out.
    pub fn row(&self, r: usize) -> (out: Vec<Fp>)
        requires
            self.wf(),
            r < self.h(),
        ensures
            out@.len() == self.width,
            forall|c: int| 0 <= c < self.width ==> (#[trigger] out@[c]).wf(),
            forall|c: int| 0 <= c < self.width ==> #[trigger] out@[c] == self.entry(r as int, c),
            forall|c: int| 0 <= c < self.width ==> (#[trigger] out@[c])@ == self.at(r as int, c),
    {
        let mut out: Vec<Fp> = Vec::new();
        let mut c: usize = 0;
        while c < self.width
            invariant
                self.wf(),
                r < self.h(),
                c <= self.width,
                out@.len() == c,
                forall|k: int| 0 <= k < c ==> (#[trigger] out@[k]).wf(),
                forall|k: int| 0 <= k < c ==> #[trigger] out@[k] == self.entry(r as int, k),
                forall|k: int| 0 <= k < c ==> (#[trigger] out@[k])@ == self.at(r as int, k),
            decreases self.width - c,
        {
            let v = self.get(r, c);
            out.push(v);
            c = c + 1;
        }
        out
    }
}

} // verus!
