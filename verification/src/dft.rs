//! The transform capability: the inverse DFT that recovers the final
//! polynomial's coefficients, and the coset low-degree extension that the
//! commitment scheme uses. Both are relied on through their subgroup
//! evaluation semantics.

use vstd::prelude::*;
use vstd::arithmetic::power2::pow2;
use p3_baby_bear::BabyBear;
use p3_dft::{Radix2Dit, TwoAdicSubgroupDft};
use p3_field::extension::BinomialExtensionField;
use p3_field::{BasedVectorSpace, PrimeField32};
use p3_matrix::dense::RowMajorMatrix;
use p3_matrix::Matrix;
use crate::ext::{efrom, epoly_eval, views_of, Ext};
use crate::field::{fmul, fpow, two_adic_gen, Fp};
use crate::matrix::FpMat;
use crate::mmcs::log2_of;

verus! {

/// A base-valued polynomial, given by its coefficients, evaluated at the
/// base point `x`.
pub open spec fn fpoly_eval(coeffs: Seq<int>, x: int) -> int
    decreases coeffs.len(),
{
    if coeffs.len() == 0 {
        0
    } else {
        crate::field::fadd(coeffs[0], fmul(x, fpoly_eval(coeffs.drop_first(), x)))
    }
}

/// The coefficient sequence that the inverse transform computes from an
/// evaluation table: a function of the evaluations alone. The evaluation
/// relation in the transform's contract says what the coefficients
/// interpolate; this name pins the one sequence the call returns.
pub uninterp spec fn idft_coeffs(evals: Seq<Seq<int>>) -> Seq<Seq<int>>;

/// Relies on `p3_dft::TwoAdicSubgroupDft::idft_algebra` for
/// `Radix2Dit<BabyBear>` applied to quartic-extension values: treating the
/// input of length `n = 2^k` as the evaluations of a polynomial on the
/// order-`n` subgroup (position `j` holding the value at the `j`-th power
/// of the subgroup's canonical generator), it returns that polynomial's
/// `n` coefficients in ascending degree order.
#[verifier::external_body]
pub fn idft_ext(evals: &Vec<Ext>) -> (r: Vec<Ext>)
    requires
        forall|i: int| 0 <= i < evals@.len() ==> (#[trigger] evals@[i]).wf(),
        exists|k: nat| k <= 27 && evals@.len() == pow2(k),
    ensures
        r@.len() == evals@.len(),
        forall|i: int| 0 <= i < r@.len() ==> (#[trigger] r@[i]).wf(),
        views_of(r@) == idft_coeffs(views_of(evals@)),
        forall|j: int|
            0 <= j < evals@.len() ==> #[trigger] evals@[j]@ == epoly_eval(
                views_of(r@),
                efrom(fpow(two_adic_gen(log2_of(evals@.len())), j as nat)),
            ),
{
    let conv = |a: &Ext| BinomialExtensionField::new(
        BabyBear::new_array([a.c0.v, a.c1.v, a.c2.v, a.c3.v]),
    );
    let input: Vec<BinomialExtensionField<BabyBear, 4>> = evals.iter().map(conv).collect();
    let f = |x: &BabyBear| Fp { v: PrimeField32::as_canonical_u32(x) };
    let out = Radix2Dit::<BabyBear>::default().idft_algebra(input);
    out.iter().map(|e| {
        let c = BasedVectorSpace::as_basis_coefficients_slice(e);
        Ext { c0: f(&c[0]), c1: f(&c[1]), c2: f(&c[2]), c3: f(&c[3]) }
    }).collect()
}

/// Column `c` of `m` holds the evaluations of the polynomial with the
/// given coefficients on the order-`h` subgroup.
pub open spec fn col_is_poly(m: FpMat, c: int, coeffs: Seq<int>) -> bool {
    &&& coeffs.len() == m.h()
    &&& forall|i: int|
        0 <= i < m.h() ==> #[trigger] m.at(i, c) == fpoly_eval(
            coeffs,
            fpow(two_adic_gen(log2_of(m.h() as nat)), i as nat),
        )
}

/// Column `c` of `m` holds the evaluations of the polynomial with the
/// given coefficients on the coset `shift * K` of the order-`h` subgroup
/// `K`.
pub open spec fn col_is_coset_poly(m: FpMat, c: int, coeffs: Seq<int>, shift: int) -> bool {
    forall|j: int|
        0 <= j < m.h() ==> #[trigger] m.at(j, c) == fpoly_eval(
            coeffs,
            fmul(shift, fpow(two_adic_gen(log2_of(m.h() as nat)), j as nat)),
        )
}

/// Relies on `p3_dft::TwoAdicSubgroupDft::coset_lde_batch` for
/// `Radix2Dit<BabyBear>`: treating each column of the input, of height
/// `n = 2^k`, as the evaluations of a polynomial on the order-`n`
/// subgroup, it returns each polynomial's evaluations on the coset
/// `shift * K` of the subgroup `K` of order `n * 2^added_bits`, again with
/// position `j` holding the value at `shift` times the `j`-th power of
/// `K`'s canonical generator.
#[verifier::external_body]
pub fn coset_lde_batch(mat: &FpMat, added_bits: usize, shift: Fp) -> (r: FpMat)
    requires
        mat.wf(),
        shift.wf(),
        added_bits <= 27,
        exists|k: nat| k <= 27 && #[trigger] pow2(k) == mat.h() && k + added_bits <= 27,
    ensures
        r.wf(),
        r.width == mat.width,
        r.h() == mat.h() * pow2(added_bits as nat),
        forall|coeffs: Seq<int>, c: int|
            0 <= c < mat.width && #[trigger] col_is_poly(*mat, c, coeffs) ==> col_is_coset_poly(
                r,
                c,
                coeffs,
                shift@,
            ),
{
    let values: Vec<BabyBear> = mat.values.iter().map(|x| BabyBear::new(x.v)).collect();
    let input = RowMajorMatrix::new(values, mat.width);
    let out = Radix2Dit::<BabyBear>::default()
        .coset_lde_batch(input, added_bits, BabyBear::new(shift.v))
        .to_row_major_matrix();
    let width = out.width();
    let back = |x: &BabyBear| Fp { v: PrimeField32::as_canonical_u32(x) };
    FpMat { values: out.values.iter().map(back).collect(), width }
}

} // verus!
