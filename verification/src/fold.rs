//! The two-adic folding rule: combines the two evaluations of a codeword
//! pair into one evaluation of the half-length codeword, at a
//! transcript-supplied point.

use vstd::prelude::*;
use vstd::arithmetic::power2::pow2;
use crate::bits::{rev_bits, reverse_bits_len};
use crate::ext::{eadd, efrom, emul, esub, Ext};
use crate::field::{finv0, fneg, fpow, fsub, two_adic_gen, Fp};

verus! {

/// The folded value: the line through `(x, e0)` and `(-x, e1)` evaluated
/// at `beta`, where `x` is the subgroup point of this pair. `index` is the
/// pair's position in the half-length codeword, which is enumerated in
/// bit-reversed order.
#[verifier::opaque]
pub open spec fn fold_row_s(
    index: nat,
    log_folded_height: nat,
    beta: Seq<int>,
    e0: Seq<int>,
    e1: Seq<int>,
) -> Seq<int> {
    let x0 = fpow(two_adic_gen(log_folded_height + 1), rev_bits(index, log_folded_height));
    let denom = fsub(fneg(x0), x0);
    eadd(e0, emul(esub(beta, efrom(x0)), emul(esub(e1, e0), efrom(finv0(denom)))))
}

/// Folds one pair of evaluations.
pub fn fold_row(index: usize, log_folded_height: usize, beta: Ext, e0: Ext, e1: Ext) -> (r: Ext)
    requires
        log_folded_height + 1 <= 27,
        log_folded_height < 30,
        beta.wf(),
        e0.wf(),
        e1.wf(),
    ensures
        r.wf(),
        r@ == fold_row_s(index as nat, log_folded_height as nat, beta@, e0@, e1@),
{
    proof {
        reveal(fold_row_s);
    }
    let rev = reverse_bits_len(index, log_folded_height);
    let x0 = Fp::two_adic_generator(log_folded_height + 1).pow_u64(rev as u64);
    let x1 = x0.neg();
    let denom_inv = x1.sub(x0).inverse();
    e0.add(beta.sub(Ext::from_base(x0)).mul(e1.sub(e0).mul(Ext::from_base(denom_inv))))
}

/// Folds a whole codeword of pairs.
pub fn fold_codeword(beta: Ext, codeword: &Vec<Ext>, log_folded_height: usize) -> (r: Vec<Ext>)
    requires
        log_folded_height + 1 <= 27,
        log_folded_height < 30,
        beta.wf(),
        codeword@.len() == 2 * pow2(log_folded_height as nat),
        forall|i: int| 0 <= i < codeword@.len() ==> (#[trigger] codeword@[i]).wf(),
    ensures
        r@.len() == pow2(log_folded_height as nat),
        forall|i: int| 0 <= i < r@.len() ==> (#[trigger] r@[i]).wf(),
        forall|i: int|
            0 <= i < r@.len() ==> (#[trigger] r@[i])@ == fold_row_s(
                i as nat,
                log_folded_height as nat,
                beta@,
                codeword@[2 * i]@,
                codeword@[2 * i + 1]@,
            ),
{
    let half = codeword.len() / 2;
    proof {
        assert(half == pow2(log_folded_height as nat));
    }
    let mut r: Vec<Ext> = Vec::new();
    let mut i: usize = 0;
    while i < half
        invariant
            log_folded_height + 1 <= 27,
            log_folded_height < 30,
            beta.wf(),
            codeword@.len() == 2 * pow2(log_folded_height as nat),
            half == pow2(log_folded_height as nat),
            forall|k: int| 0 <= k < codeword@.len() ==> (#[trigger] codeword@[k]).wf(),
            i <= half,
            r@.len() == i,
            forall|k: int| 0 <= k < i ==> (#[trigger] r@[k]).wf(),
            forall|k: int|
                0 <= k < i ==> (#[trigger] r@[k])@ == fold_row_s(
                    k as nat,
                    log_folded_height as nat,
                    beta@,
                    codeword@[2 * k]@,
                    codeword@[2 * k + 1]@,
                ),
        decreases half - i,
    {
        let n = codeword.len();
        proof {
            assert(2 * (i as int) + 1 < n as int);
        }
        let e0 = codeword[2 * i];
        let e1 = codeword[2 * i + 1];
        let v = fold_row(i, log_folded_height, beta, e0, e1);
        r.push(v);
        i = i + 1;
    }
    r
}

} // verus!
