//! Barycentric interpolation: evaluates polynomials, given by their
//! values on a coset of a power-of-two subgroup, at an arbitrary point.

use vstd::prelude::*;
use vstd::arithmetic::power2::pow2;
use crate::bits::log2_strict;
use crate::ext::{
    batch_inverse, eadd, efrom, emul, epow, esub, ezero, Ext,
};
use crate::field::{finv0, fmul, fpow, two_adic_gen, Fp};
use crate::matrix::FpMat;

verus! {

/// `einv` of zero is left unconstrained; this total version, which the
/// executable batch inversion matches exactly, sends zero to zero.
pub open spec fn einv0(a: Seq<int>) -> Seq<int> {
    if a == ezero() {
        ezero()
    } else {
        crate::ext::einv(a)
    }
}

/// The barycentric weight of row `i`: `g^i / (z - s * g^i)`, with the
/// coset point `s * g^i` embedded into the extension.
pub open spec fn bary_weight(shift: int, g: int, z: Seq<int>, i: nat) -> Seq<int> {
    emul(efrom(fpow(g, i)), einv0(esub(z, efrom(fmul(shift, fpow(g, i))))))
}

/// The values of a matrix, row by row.
pub open spec fn rows_of(m: FpMat) -> Seq<Seq<int>> {
    Seq::new(m.h() as nat, |i: int| Seq::new(m.width as nat, |c: int| m.at(i, c)))
}

/// The weighted sum of the first `n` rows of column `c`.
pub open spec fn bary_sum(rows: Seq<Seq<int>>, c: int, shift: int, g: int, z: Seq<int>, n: nat) -> Seq<int>
    decreases n,
{
    if n == 0 {
        ezero()
    } else {
        eadd(
            bary_sum(rows, c, shift, g, z, (n - 1) as nat),
            emul(bary_weight(shift, g, z, (n - 1) as nat), efrom(rows[n - 1][c])),
        )
    }
}

/// The scaling factor applied to every weighted sum: the coset's
/// vanishing polynomial at `z`, divided by `height * shift^(height-1)`.
pub open spec fn bary_scale(shift: int, z: Seq<int>, h: nat) -> Seq<int> {
    emul(
        esub(epow(z, h), efrom(fpow(shift, h))),
        efrom(finv0(fmul(h as int, fpow(shift, (h - 1) as nat)))),
    )
}

/// The value of column `c` interpolated at `z`: the scaled weighted sum.
#[verifier::opaque]
pub open spec fn bary_eval(rows: Seq<Seq<int>>, c: int, shift: int, z: Seq<int>) -> Seq<int> {
    let h = rows.len();
    let g = two_adic_gen(crate::mmcs::log2_of(h));
    emul(bary_scale(shift, z, h), bary_sum(rows, c, shift, g, z, h))
}

/// The least row of the coset that the point itself lies on, if any.
pub open spec fn coset_hit(shift: int, g: int, z: Seq<int>, n: nat) -> int
    decreases n,
{
    if n == 0 {
        -1
    } else if coset_hit(shift, g, z, (n - 1) as nat) >= 0 {
        coset_hit(shift, g, z, (n - 1) as nat)
    } else if esub(z, efrom(fmul(shift, fpow(g, (n - 1) as nat)))) == ezero() {
        n - 1
    } else {
        -1
    }
}

/// The interpolated value of column `c` at `z`: the stored row where `z`
/// is a coset point itself, the barycentric formula everywhere else.
pub open spec fn interp_eval(rows: Seq<Seq<int>>, c: int, shift: int, z: Seq<int>) -> Seq<int> {
    let h = rows.len();
    let g = two_adic_gen(crate::mmcs::log2_of(h));
    let hit = coset_hit(shift, g, z, h);
    if hit >= 0 {
        efrom(rows[hit][c])
    } else {
        bary_eval(rows, c, shift, z)
    }
}

/// Given evaluations of a batch of polynomials (one per column) over the
/// given coset of the canonical power-of-two subgroup, evaluates each
/// polynomial at `point`: a point of the coset itself is answered from
/// the stored row, every other point by the barycentric formula. For a
/// column of degree below the coset size this is exact polynomial
/// evaluation.
pub fn interpolate_coset(coset_evals: &FpMat, shift: Fp, point: Ext) -> (r: Vec<Ext>)
    requires
        coset_evals.wf(),
        shift.wf(),
        point.wf(),
        exists|k: nat| k <= 27 && #[trigger] pow2(k) == coset_evals.h(),
        coset_evals.h() >= 1,
    ensures
        r@.len() == coset_evals.width,
        forall|c: int| 0 <= c < r@.len() ==> (#[trigger] r@[c]).wf(),
        forall|c: int|
            0 <= c < r@.len() ==> (#[trigger] r@[c])@ == interp_eval(
                rows_of(*coset_evals),
                c,
                shift@,
                point@,
            ),
{
    let ghost k = choose|k: nat| k <= 27 && #[trigger] pow2(k) == coset_evals.h();
    let h = coset_evals.height();
    let log_h = log2_strict(h, Ghost(k));
    proof {
        crate::mmcs::lemma_log2_of(k);
    }
    let g = Fp::two_adic_generator(log_h);
    let ghost gs = g@;

    // Powers of the subgroup generator, and the differences `z - s * g^i`.
    let mut powers: Vec<Fp> = Vec::new();
    let mut diffs: Vec<Ext> = Vec::new();
    let mut cur = Fp::one();
    let mut i: usize = 0;
    proof {
        assert(fpow(gs, 0) == 1) by {
            vstd::arithmetic::power::lemma_pow0(gs);
            vstd::arithmetic::div_mod::lemma_small_mod(1, crate::field::P as nat);
        };
    }
    while i < h
        invariant
            coset_evals.wf(),
            shift.wf(),
            point.wf(),
            g.wf(),
            gs == g@,
            cur.wf(),
            h == coset_evals.h(),
            i <= h,
            powers@.len() == i,
            diffs@.len() == i,
            cur@ == fpow(gs, i as nat),
            forall|t: int| 0 <= t < i ==> (#[trigger] powers@[t]).wf(),
            forall|t: int| 0 <= t < i ==> (#[trigger] powers@[t])@ == fpow(gs, t as nat),
            forall|t: int| 0 <= t < i ==> (#[trigger] diffs@[t]).wf(),
            forall|t: int|
                0 <= t < i ==> (#[trigger] diffs@[t])@ == esub(
                    point@,
                    efrom(fmul(shift@, fpow(gs, t as nat))),
                ),
        decreases h - i,
    {
        powers.push(cur);
        let d = point.sub(Ext::from_base(shift.mul(cur)));
        diffs.push(d);
        proof {
            lemma_fpow_step(gs, i as nat);
        }
        cur = g.mul(cur);
        i = i + 1;
    }
    // A point on the coset itself is answered from the stored row.
    let mut found = false;
    let mut at: usize = 0;
    let mut s0: usize = 0;
    while s0 < h
        invariant
            h == coset_evals.h(),
            coset_evals.wf(),
            diffs@.len() == h,
            forall|t: int|
                0 <= t < h ==> (#[trigger] diffs@[t])@ == esub(
                    point@,
                    efrom(fmul(shift@, fpow(gs, t as nat))),
                ),
            forall|t: int| 0 <= t < h ==> (#[trigger] diffs@[t]).wf(),
            s0 <= h,
            !found ==> coset_hit(shift@, gs, point@, s0 as nat) == -1,
            found ==> at < s0 && coset_hit(shift@, gs, point@, s0 as nat) == at,
        decreases h - s0,
    {
        if !found && diffs[s0].is_zero() {
            found = true;
            at = s0;
        }
        s0 = s0 + 1;
    }
    if found {
        let width = coset_evals.width();
        let mut out: Vec<Ext> = Vec::new();
        let mut c: usize = 0;
        while c < width
            invariant
                coset_evals.wf(),
                h == coset_evals.h(),
                width == coset_evals.width,
                at < h,
                c <= width,
                out@.len() == c,
                forall|t: int| 0 <= t < c ==> (#[trigger] out@[t]).wf(),
                forall|t: int|
                    0 <= t < c ==> (#[trigger] out@[t])@ == efrom(
                        coset_evals.at(at as int, t),
                    ),
            decreases width - c,
        {
            let v = Ext::from_base(coset_evals.get(at, c));
            out.push(v);
            c = c + 1;
        }
        proof {
            assert forall|c2: int| 0 <= c2 < out@.len() implies (#[trigger] out@[c2])@
                == interp_eval(rows_of(*coset_evals), c2, shift@, point@) by {
                assert(rows_of(*coset_evals)[at as int][c2] == coset_evals.at(at as int, c2));
            }
        }
        return out;
    }
    let ghost no_hit = coset_hit(shift@, gs, point@, h as nat);
    proof {
        assert(no_hit == -1);
    }
    let inv_diffs = batch_inverse(&diffs);

    // Weighted row sums, one accumulator per column.
    let width = coset_evals.width();
    let mut sums: Vec<Ext> = Vec::new();
    let mut c0: usize = 0;
    while c0 < width
        invariant
            c0 <= width,
            sums@.len() == c0,
            forall|t: int| 0 <= t < c0 ==> (#[trigger] sums@[t]).wf(),
            forall|t: int| 0 <= t < c0 ==> (#[trigger] sums@[t])@ == ezero(),
        decreases width - c0,
    {
        sums.push(Ext::zero());
        c0 = c0 + 1;
    }
    let mut row: usize = 0;
    while row < h
        invariant
            coset_evals.wf(),
            shift.wf(),
            point.wf(),
            h == coset_evals.h(),
            width == coset_evals.width,
            powers@.len() == h,
            inv_diffs@.len() == h,
            forall|t: int| 0 <= t < h ==> (#[trigger] powers@[t]).wf(),
            forall|t: int| 0 <= t < h ==> (#[trigger] powers@[t])@ == fpow(gs, t as nat),
            forall|t: int| 0 <= t < h ==> (#[trigger] inv_diffs@[t]).wf(),
            forall|t: int|
                0 <= t < h ==> (#[trigger] inv_diffs@[t])@ == einv0(
                    esub(point@, efrom(fmul(shift@, fpow(gs, t as nat)))),
                ),
            no_hit == -1,
            no_hit == coset_hit(shift@, gs, point@, h as nat),
            row <= h,
            sums@.len() == width,
            forall|t: int| 0 <= t < width ==> (#[trigger] sums@[t]).wf(),
            forall|t: int|
                0 <= t < width ==> (#[trigger] sums@[t])@ == bary_sum(
                    rows_of(*coset_evals),
                    t,
                    shift@,
                    gs,
                    point@,
                    row as nat,
                ),
        decreases h - row,
    {
        let weight = Ext::from_base(powers[row]).mul(inv_diffs[row]);
        proof {
            assert(weight@ == bary_weight(shift@, gs, point@, row as nat));
        }
        let mut c: usize = 0;
        while c < width
            invariant
                coset_evals.wf(),
                h == coset_evals.h(),
                width == coset_evals.width,
                row < h,
                weight.wf(),
                weight@ == bary_weight(shift@, gs, point@, row as nat),
                c <= width,
                sums@.len() == width,
                forall|t: int| 0 <= t < width ==> (#[trigger] sums@[t]).wf(),
                forall|t: int|
                    c <= t < width ==> (#[trigger] sums@[t])@ == bary_sum(
                        rows_of(*coset_evals),
                        t,
                        shift@,
                        gs,
                        point@,
                        row as nat,
                    ),
                forall|t: int|
                    0 <= t < c ==> (#[trigger] sums@[t])@ == bary_sum(
                        rows_of(*coset_evals),
                        t,
                        shift@,
                        gs,
                        point@,
                        (row + 1) as nat,
                    ),
            decreases width - c,
        {
            proof {
                assert(rows_of(*coset_evals)[row as int][c as int] == coset_evals.at(
                    row as int,
                    c as int,
                ));
            }
            let y = coset_evals.get(row, c);
            let term = weight.mul(Ext::from_base(y));
            let updated = sums[c].add(term);
            sums.set(c, updated);
            c = c + 1;
        }
        row = row + 1;
    }

    // The scaling factor.
    let zerofier = point.exp_u64(h as u64).sub(Ext::from_base(shift.pow_u64(h as u64)));
    let denom = Fp::from_u64(h as u64).mul(shift.pow_u64((h - 1) as u64));
    let sc = zerofier.mul(Ext::from_base(denom.inverse()));
    proof {
        assert(h as u64 as int % crate::field::pm() == h as int) by {
            assert(coset_evals.h() == pow2(k));
            if k < 27 {
                vstd::arithmetic::power2::lemma_pow2_strictly_increases(k, 27);
            }
            assert(pow2(27) == 0x8000000) by {
                vstd::arithmetic::power2::lemma2_to64();
                vstd::arithmetic::power2::lemma2_to64_rest();
            };
            vstd::arithmetic::div_mod::lemma_small_mod(h as nat, crate::field::P as nat);
        };
        assert(sc@ == bary_scale(shift@, point@, h as nat));
    }

    let mut out: Vec<Ext> = Vec::new();
    let mut c: usize = 0;
    while c < width
        invariant
            coset_evals.wf(),
            h == coset_evals.h(),
            width == coset_evals.width,
            sc.wf(),
            sc@ == bary_scale(shift@, point@, h as nat),
            gs == two_adic_gen(crate::mmcs::log2_of(h as nat)),
            no_hit == -1,
            no_hit == coset_hit(shift@, gs, point@, h as nat),
            sums@.len() == width,
            forall|t: int| 0 <= t < width ==> (#[trigger] sums@[t]).wf(),
            forall|t: int|
                0 <= t < width ==> (#[trigger] sums@[t])@ == bary_sum(
                    rows_of(*coset_evals),
                    t,
                    shift@,
                    gs,
                    point@,
                    h as nat,
                ),
            c <= width,
            out@.len() == c,
            forall|t: int| 0 <= t < c ==> (#[trigger] out@[t]).wf(),
            forall|t: int|
                0 <= t < c ==> (#[trigger] out@[t])@ == interp_eval(
                    rows_of(*coset_evals),
                    t,
                    shift@,
                    point@,
                ),
        decreases width - c,
    {
        proof {
            reveal(bary_eval);
        }
        let v = sc.mul(sums[c]);
        out.push(v);
        c = c + 1;
    }
    out
}

/// Given evaluations of a batch of polynomials over the canonical
/// power-of-two subgroup itself, evaluates each polynomial at `point`.
pub fn interpolate_subgroup(subgroup_evals: &FpMat, point: Ext) -> (r: Vec<Ext>)
    requires
        subgroup_evals.wf(),
        point.wf(),
        exists|k: nat| k <= 27 && #[trigger] pow2(k) == subgroup_evals.h(),
        subgroup_evals.h() >= 1,
    ensures
        r@.len() == subgroup_evals.width,
        forall|c: int| 0 <= c < r@.len() ==> (#[trigger] r@[c]).wf(),
        forall|c: int|
            0 <= c < r@.len() ==> (#[trigger] r@[c])@ == interp_eval(
                rows_of(*subgroup_evals),
                c,
                1,
                point@,
            ),
    {
    interpolate_coset(subgroup_evals, Fp::one(), point)
}

/// `x[i] += y[i] * s` for every position the two slices share; positions
/// of `x` beyond the shorter slice stay as they were.
pub fn add_scaled_base_slice_in_place(x: &mut Vec<Ext>, y: &Vec<Fp>, s: Ext)
    requires
        forall|i: int| 0 <= i < old(x)@.len() ==> (#[trigger] old(x)@[i]).wf(),
        forall|i: int| 0 <= i < y@.len() ==> (#[trigger] y@[i]).wf(),
        s.wf(),
    ensures
        final(x)@.len() == old(x)@.len(),
        forall|i: int| 0 <= i < final(x)@.len() ==> (#[trigger] final(x)@[i]).wf(),
        forall|i: int|
            0 <= i < final(x)@.len() && i < y@.len() ==> (#[trigger] final(x)@[i])@ == eadd(
                old(x)@[i]@,
                emul(s@, efrom(y@[i]@)),
            ),
        forall|i: int|
            y@.len() <= i < final(x)@.len() ==> #[trigger] final(x)@[i] == old(x)@[i],
{
    let n = if y.len() < x.len() {
        y.len()
    } else {
        x.len()
    };
    let mut i: usize = 0;
    while i < n
        invariant
            x@.len() == old(x)@.len(),
            n <= x@.len(),
            n <= y@.len(),
            s.wf(),
            forall|t: int| 0 <= t < y@.len() ==> (#[trigger] y@[t]).wf(),
            i <= n,
            forall|t: int| i <= t < x@.len() ==> (#[trigger] x@[t]) == old(x)@[t],
            forall|t: int| 0 <= t < x@.len() ==> (#[trigger] x@[t]).wf(),
            forall|t: int|
                0 <= t < i ==> (#[trigger] x@[t])@ == eadd(old(x)@[t]@, emul(s@, efrom(y@[t]@))),
        decreases n - i,
    {
        let updated = x[i].add(s.mul(Ext::from_base(y[i])));
        x.set(i, updated);
        i = i + 1;
    }
}

/// One more power of the generator.
proof fn lemma_fpow_step(g: int, i: nat)
    ensures
        fmul(g, fpow(g, i)) == fpow(g, (i + 1) as nat),
{
    let p = vstd::arithmetic::power::pow(g, i);
    assert(vstd::arithmetic::power::pow(g, i + 1) == g * p) by {
        vstd::arithmetic::power::lemma_pow_adds(g, 1, i);
        vstd::arithmetic::power::lemma_pow1(g);
    };
    vstd::arithmetic::div_mod::lemma_mul_mod_noop_general(g, p, crate::field::pm());
}

} // verus!
