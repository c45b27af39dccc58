//! The two-adic polynomial commitment scheme: commits to polynomials by
//! their low-degree extensions, and batches many (matrix, point) openings
//! into a single FRI instance through a power-of-challenge linear
//! combination of quotients.

use vstd::prelude::*;
use vstd::arithmetic::power2::{lemma_pow2_adds, lemma_pow2_pos, lemma_pow2_strictly_increases, pow2};
use crate::bits::{log2_strict, pow2_usize, rev_bits, reverse_bits_len};
use crate::challenger::{
    absorb, absorb_ext_seq, squeeze, squeeze4, squeeze4_state, squeeze_n, Challenger,
};
use crate::config::FriConfig;
use crate::dft::{col_is_poly, coset_lde_batch, fpoly_eval};
use crate::ext::{eadd, efrom, emul, epow, esub, ezero, views_of, Ext};
use crate::field::{fmul, fpow, two_adic_gen, Fp, GENERATOR};
use crate::fri_proof::{FriError, FriProof, ProverError};
use crate::matrix::FpMat;
use crate::mmcs::{
    batch_commit, batch_open, batch_verify, log2_of, wf_batch, BatchCommitment,
    BatchOpeningProof, BatchProverData, Dims,
};

verus! {

/// The polynomial commitment scheme: a FRI configuration together with
/// the transform and commitment capabilities of this crate.
#[derive(Clone, Copy, PartialEq, Eq, Structural, Debug)]
pub struct TwoAdicFriPcs {
    pub fri: FriConfig,
}

/// One opened batch row under one query: the per-matrix rows at the
/// queried index, with the inclusion evidence.
#[derive(Clone, Debug)]
pub struct BatchOpening {
    pub opened_values: Vec<Vec<Fp>>,
    pub opening_proof: BatchOpeningProof,
}

/// The full proof of a batched multi-point opening: the FRI proof of the
/// reduced codewords, and, for each query, one opened row per committed
/// batch.
#[derive(Clone, Debug)]
pub struct TwoAdicFriPcsProof {
    pub fri_proof: FriProof,
    pub query_openings: Vec<Vec<BatchOpening>>,
}

/// Why a batched opening was rejected.
#[derive(Clone, Copy, PartialEq, Eq, Structural, Debug)]
pub enum VerificationError {
    /// The commitment capability rejected an opened batch row.
    InputMmcsError,
    /// The FRI proof of the reduced codewords was rejected.
    FriError(FriError),
}

/// The matrix's height is a power of two small enough to blow up by
/// `2^lb` within the field's two-adicity.
pub open spec fn lde_ready(m: FpMat, lb: int) -> bool {
    exists|k: nat| k + lb <= 27 && #[trigger] pow2(k) == m.h()
}

/// A matrix whose rows are the rows of `m` in bit-reversed order.
pub open spec fn is_bit_reversed_of(r: FpMat, m: FpMat, bits: nat) -> bool {
    &&& r.width == m.width
    &&& r.h() == m.h()
    &&& forall|j: int, c: int|
        0 <= j < m.h() && 0 <= c < m.width ==> #[trigger] r.at(j, c) == m.at(
            rev_bits(j as nat, bits) as int,
            c,
        )
}

/// Permutes the rows of a matrix into bit-reversed order.
pub fn bit_reverse_rows(m: &FpMat, Ghost(k): Ghost<nat>) -> (r: FpMat)
    requires
        m.wf(),
        k < 30,
        m.h() == pow2(k),
    ensures
        r.wf(),
        is_bit_reversed_of(r, *m, k),
{
    let h = m.height();
    let log_h = log2_strict(h, Ghost(k));
    let w = m.width;
    proof {
        m.lemma_size();
    }
    let total = m.values.len();
    let mut values: Vec<Fp> = Vec::new();
    let mut idx: usize = 0;
    while idx < total
        invariant
            m.wf(),
            k < 30,
            m.h() == pow2(k),
            h == m.h(),
            log_h == k,
            w == m.width,
            total == m.values@.len(),
            m.values@.len() == m.width as int * m.h(),
            idx <= total,
            values@.len() == idx,
            forall|i: int| 0 <= i < values@.len() ==> (#[trigger] values@[i]).wf(),
            forall|i: int|
                0 <= i < values@.len() ==> #[trigger] values@[i] == m.entry(
                    rev_bits((i / (m.width as int)) as nat, k) as int,
                    i % (m.width as int),
                ),
        decreases total - idx,
    {
        let rowi = idx / w;
        let c = idx % w;
        proof {
            vstd::arithmetic::div_mod::lemma_multiply_divide_lt(idx as int, w as int, h as int);
            vstd::arithmetic::div_mod::lemma_mod_bound(idx as int, w as int);
            crate::bits::lemma_rev_bits_bound(rowi as nat, k);
        }
        let rr = reverse_bits_len(rowi, log_h);
        let v = m.get(rr, c);
        values.push(v);
        idx = idx + 1;
    }
    let r = FpMat { values, width: w };
    proof {
        vstd::arithmetic::div_mod::lemma_mod_multiples_basic(h as int, w as int);
        vstd::arithmetic::mul::lemma_mul_is_commutative(h as int, w as int);
        assert(r.wf());
        assert(r.h() == m.h()) by {
            vstd::arithmetic::div_mod::lemma_div_multiples_vanish(h as int, w as int);
            vstd::arithmetic::mul::lemma_mul_is_commutative(h as int, w as int);
        };
        assert forall|jj: int, c: int| 0 <= jj < m.h() && 0 <= c < m.width implies #[trigger] r.at(
            jj,
            c,
        ) == m.at(rev_bits(jj as nat, k) as int, c) by {
            crate::matrix::lemma_rc_index(w as int, m.h(), jj, c);
            let i = jj * (w as int) + c;
            vstd::arithmetic::div_mod::lemma_fundamental_div_mod_converse(
                i,
                w as int,
                jj,
                c,
            );
            assert(values@[i] == m.entry(rev_bits(jj as nat, k) as int, c));
            crate::bits::lemma_rev_bits_bound(jj as nat, k);
        }
    }
    r
}

/// `Σ α^i · x_i` over the first `n` extension values.
#[verifier::opaque]
pub open spec fn powsum_ext(alpha: Seq<int>, xs: Seq<Seq<int>>, n: nat) -> Seq<int>
    decreases n,
{
    if n == 0 {
        ezero()
    } else {
        eadd(powsum_ext(alpha, xs, (n - 1) as nat), emul(epow(alpha, (n - 1) as nat), xs[n - 1]))
    }
}

/// `Σ α^i · x_i` over the first `n` base values.
#[verifier::opaque]
pub open spec fn powsum_base(alpha: Seq<int>, xs: Seq<int>, n: nat) -> Seq<int>
    decreases n,
{
    if n == 0 {
        ezero()
    } else {
        eadd(
            powsum_base(alpha, xs, (n - 1) as nat),
            emul(epow(alpha, (n - 1) as nat), efrom(xs[n - 1])),
        )
    }
}

/// Multiplying an extension value by an embedded base value scales every
/// coordinate.
proof fn lemma_emul_base(p: Seq<int>, x: int)
    requires
        crate::ext::wfe(p),
        0 <= x < crate::field::pm(),
    ensures
        emul(p, efrom(x)) == crate::ext::escale(x, p),
{
    let m = crate::field::pm();
    assert forall|d: int| 0 <= d < 4 implies fmul(#[trigger] p[d], 0) == 0 by {
        assert(p[d] * 0 == 0) by {
            vstd::arithmetic::mul::lemma_mul_basics(p[d]);
        };
        vstd::arithmetic::div_mod::lemma_small_mod(0, crate::field::P as nat);
    }
    assert forall|d: int| 0 <= d < 4 implies #[trigger] fmul(p[d], x) == fmul(x, p[d]) by {
        vstd::arithmetic::mul::lemma_mul_is_commutative(p[d], x);
    }
    assert forall|d: int| 0 <= d < 4 implies 0 <= #[trigger] fmul(p[d], x) < m by {
        vstd::arithmetic::div_mod::lemma_mod_bound(p[d] * x, m);
    }
    assert forall|y: int| 0 <= y < m implies #[trigger] crate::field::fadd(y, 0) == y by {
        vstd::arithmetic::div_mod::lemma_small_mod(y as nat, crate::field::P as nat);
    }
    assert forall|y: int| 0 <= y < m implies #[trigger] crate::field::fadd(0, y) == y by {
        vstd::arithmetic::div_mod::lemma_small_mod(y as nat, crate::field::P as nat);
    }
    assert(crate::field::fadd(0, 0) == 0) by {
        vstd::arithmetic::div_mod::lemma_small_mod(0, crate::field::P as nat);
    };
    assert(fmul(crate::ext::W as int, 0) == 0) by {
        vstd::arithmetic::div_mod::lemma_small_mod(0, crate::field::P as nat);
    };
    assert(emul(p, efrom(x)) =~= crate::ext::escale(x, p));
}

/// Precomputed powers of a batching challenge, for weighted sums of both
/// extension-valued and base-valued rows. The per-coordinate layout that
/// a packed backend would use degenerates to the plain coordinates here,
/// so the powers are kept once and read coordinate by coordinate.
pub struct PowersReducer {
    pub alpha: Ext,
    pub powers: Vec<Ext>,
}

impl PowersReducer {
    pub open spec fn wf(self) -> bool {
        &&& self.alpha.wf()
        &&& forall|i: int| 0 <= i < self.powers@.len() ==> (#[trigger] self.powers@[i]).wf()
        &&& forall|i: int|
            0 <= i < self.powers@.len() ==> (#[trigger] self.powers@[i])@ == epow(
                self.alpha@,
                i as nat,
            )
    }

    pub fn new(base: Ext, max_width: usize) -> (r: PowersReducer)
        requires
            base.wf(),
        ensures
            r.wf(),
            r.alpha == base,
            r.powers@.len() == max_width,
    {
        let mut powers: Vec<Ext> = Vec::new();
        let mut cur = Ext::one();
        let mut i: usize = 0;
        while i < max_width
            invariant
                base.wf(),
                cur.wf(),
                i <= max_width,
                powers@.len() == i,
                cur@ == epow(base@, i as nat),
                forall|t: int| 0 <= t < i ==> (#[trigger] powers@[t]).wf(),
                forall|t: int| 0 <= t < i ==> (#[trigger] powers@[t])@ == epow(base@, t as nat),
            decreases max_width - i,
        {
            powers.push(cur);
            proof {
                crate::ext::lemma_epow_peel(base@, i as nat);
            }
            cur = base.mul(cur);
            i = i + 1;
        }
        PowersReducer { alpha: base, powers }
    }

    /// `Σ α^i · x_i` over extension values.
    pub fn reduce_ext(&self, xs: &Vec<Ext>) -> (r: Ext)
        requires
            self.wf(),
            xs@.len() <= self.powers@.len(),
            forall|i: int| 0 <= i < xs@.len() ==> (#[trigger] xs@[i]).wf(),
        ensures
            r.wf(),
            r@ == powsum_ext(self.alpha@, views_of(xs@), xs@.len() as nat),
    {
        let mut acc = Ext::zero();
        let mut i: usize = 0;
        proof {
            reveal(powsum_ext);
        }
        while i < xs.len()
            invariant
                self.wf(),
                xs@.len() <= self.powers@.len(),
                forall|t: int| 0 <= t < xs@.len() ==> (#[trigger] xs@[t]).wf(),
                i <= xs@.len(),
                acc.wf(),
                acc@ == powsum_ext(self.alpha@, views_of(xs@), i as nat),
            decreases xs@.len() - i,
        {
            proof {
                reveal(powsum_ext);
            }
            let term = self.powers[i].mul(xs[i]);
            acc = acc.add(term);
            i = i + 1;
        }
        acc
    }

    /// `Σ α^i · x_i` over base values: each challenge power is taken
    /// apart into its coordinates, each coordinate is
    /// multiply-accumulated in the base field, and the four sums are
    /// reassembled.
    #[verifier::rlimit(100)]
    pub fn reduce_base(&self, xs: &Vec<Fp>) -> (r: Ext)
        requires
            self.wf(),
            xs@.len() <= self.powers@.len(),
            forall|i: int| 0 <= i < xs@.len() ==> (#[trigger] xs@[i]).wf(),
        ensures
            r.wf(),
            r@ == powsum_base(self.alpha@, xs@.map_values(|x: Fp| x@), xs@.len() as nat),
    {
        let ghost xv = xs@.map_values(|x: Fp| x@);
        let mut s0 = Fp::zero();
        let mut s1 = Fp::zero();
        let mut s2 = Fp::zero();
        let mut s3 = Fp::zero();
        let mut i: usize = 0;
        proof {
            reveal(powsum_base);
            assert((Ext { c0: s0, c1: s1, c2: s2, c3: s3 })@ =~= ezero());
        }
        while i < xs.len()
            invariant
                self.wf(),
                xs@.len() <= self.powers@.len(),
                xv == xs@.map_values(|x: Fp| x@),
                forall|t: int| 0 <= t < xs@.len() ==> (#[trigger] xs@[t]).wf(),
                i <= xs@.len(),
                s0.wf(),
                s1.wf(),
                s2.wf(),
                s3.wf(),
                (Ext { c0: s0, c1: s1, c2: s2, c3: s3 })@ == powsum_base(self.alpha@, xv, i as nat),
            decreases xs@.len() - i,
        {
            let x = xs[i];
            let p = self.powers[i];
            let ghost before = Ext { c0: s0, c1: s1, c2: s2, c3: s3 };
            let n0 = s0.add(x.mul(p.c0));
            let n1 = s1.add(x.mul(p.c1));
            let n2 = s2.add(x.mul(p.c2));
            let n3 = s3.add(x.mul(p.c3));
            proof {
                reveal(powsum_base);
                p.lemma_wf_view();
                assert((Ext { c0: n0, c1: n1, c2: n2, c3: n3 })@ =~= eadd(
                    before@,
                    crate::ext::escale(x@, p@),
                ));
                lemma_reduce_base_step(
                    self.alpha@,
                    xv,
                    i as int,
                    before@,
                    (Ext { c0: n0, c1: n1, c2: n2, c3: n3 })@,
                    p@,
                    x@,
                );
            }
            s0 = n0;
            s1 = n1;
            s2 = n2;
            s3 = n3;
            i = i + 1;
        }
        let r = Ext { c0: s0, c1: s1, c2: s2, c3: s3 };
        r
    }
}

/// One accumulation step of the base-valued weighted sum.
proof fn lemma_reduce_base_step(
    alpha: Seq<int>,
    xv: Seq<int>,
    i: int,
    before: Seq<int>,
    after: Seq<int>,
    p: Seq<int>,
    x: int,
)
    requires
        0 <= i < xv.len(),
        before == powsum_base(alpha, xv, i as nat),
        p == epow(alpha, i as nat),
        crate::ext::wfe(p),
        x == xv[i],
        0 <= x < crate::field::pm(),
        after == eadd(before, crate::ext::escale(x, p)),
    ensures
        after == powsum_base(alpha, xv, (i + 1) as nat),
{
    reveal(powsum_base);
    lemma_emul_base(p, x);
}

/// One precomputed family of inverse denominators: for the point `z`,
/// the inverse of `x - z` for every `x` of the largest committed coset,
/// enumerated in bit-reversed order.
pub struct PointInvs {
    pub z: Ext,
    pub invs: Vec<Ext>,
}

/// The `j`-th point of the committed coset of size `2^bits`, enumerated
/// in bit-reversed order.
pub open spec fn coset_point(bits: nat, j: int) -> int {
    fmul(GENERATOR as int, fpow(two_adic_gen(bits), rev_bits(j as nat, bits)))
}

/// Some entry of the table is keyed by `z`.
pub open spec fn covers(r: Seq<PointInvs>, z: Ext) -> bool {
    exists|e: int| 0 <= e < r.len() && (#[trigger] r[e]).z == z
}

/// For each distinct opening point, the inverses `1/(x - z)` over the
/// largest coset; smaller matrices read a prefix.
pub fn compute_inverse_denominators(zs: &Vec<Ext>, log_max: usize) -> (r: Vec<PointInvs>)
    requires
        log_max <= 27,
        forall|i: int| 0 <= i < zs@.len() ==> (#[trigger] zs@[i]).wf(),
    ensures
        forall|a: int, b: int| 0 <= a < b < r@.len() ==> (#[trigger] r@[a]).z != (#[trigger] r@[b]).z,
        forall|i: int| 0 <= i < zs@.len() ==> covers(r@, #[trigger] zs@[i]),
        forall|e: int| 0 <= e < r@.len() ==> (#[trigger] r@[e]).invs@.len() == pow2(log_max as nat),
        forall|e: int| 0 <= e < r@.len() ==> (#[trigger] r@[e]).z.wf(),
        forall|e: int, j: int|
            0 <= e < r@.len() && 0 <= j < pow2(log_max as nat) ==> (#[trigger] r@[e].invs@[j]).wf()
                && r@[e].invs@[j]@ == crate::interpolation::einv0(
                esub(efrom(coset_point(log_max as nat, j)), r@[e].z@),
            ),
{
    let n = pow2_usize(log_max);
    let g = Fp::two_adic_generator(log_max);
    let shift = Fp::new(GENERATOR);
    let mut pts: Vec<Fp> = Vec::new();
    let mut j: usize = 0;
    while j < n
        invariant
            log_max <= 27,
            g.wf(),
            g@ == two_adic_gen(log_max as nat),
            shift.wf(),
            shift@ == GENERATOR as int,
            n == pow2(log_max as nat),
            j <= n,
            pts@.len() == j,
            forall|t: int| 0 <= t < j ==> (#[trigger] pts@[t]).wf(),
            forall|t: int| 0 <= t < j ==> (#[trigger] pts@[t])@ == coset_point(log_max as nat, t),
        decreases n - j,
    {
        let rj = reverse_bits_len(j, log_max);
        let p = shift.mul(g.pow_u64(rj as u64));
        pts.push(p);
        j = j + 1;
    }
    let mut out: Vec<PointInvs> = Vec::new();
    let ghost mut widx: Seq<int> = Seq::empty();
    let mut i: usize = 0;
    while i < zs.len()
        invariant
            log_max <= 27,
            n == pow2(log_max as nat),
            pts@.len() == n,
            forall|t: int| 0 <= t < n ==> (#[trigger] pts@[t]).wf(),
            forall|t: int| 0 <= t < n ==> (#[trigger] pts@[t])@ == coset_point(log_max as nat, t),
            forall|t: int| 0 <= t < zs@.len() ==> (#[trigger] zs@[t]).wf(),
            i <= zs@.len(),
            forall|a: int, b: int|
                0 <= a < b < out@.len() ==> (#[trigger] out@[a]).z != (#[trigger] out@[b]).z,
            widx.len() == i,
            forall|t: int|
                0 <= t < i ==> 0 <= #[trigger] widx[t] < out@.len() && out@[widx[t]].z == zs@[t],
            forall|e: int|
                0 <= e < out@.len() ==> (#[trigger] out@[e]).invs@.len() == pow2(log_max as nat),
            forall|e: int| 0 <= e < out@.len() ==> (#[trigger] out@[e]).z.wf(),
            forall|e: int, t: int|
                0 <= e < out@.len() && 0 <= t < pow2(log_max as nat)
                    ==> (#[trigger] out@[e].invs@[t]).wf() && out@[e].invs@[t]@
                    == crate::interpolation::einv0(
                    esub(efrom(coset_point(log_max as nat, t)), out@[e].z@),
                ),
        decreases zs@.len() - i,
    {
        let z = zs[i];
        let ghost out0 = out@;
        let mut found = false;
        let mut found_at: usize = 0;
        let mut e: usize = 0;
        while e < out.len()
            invariant
                out@ == out0,
                e <= out@.len(),
                found ==> found_at < out@.len() && out@[found_at as int].z == z,
                !found ==> forall|t: int| 0 <= t < e ==> (#[trigger] out@[t]).z != z,
            decreases out@.len() - e,
        {
            if out[e].z == z {
                found = true;
                found_at = e;
            }
            e = e + 1;
        }
        if !found {
            let mut diffs: Vec<Ext> = Vec::new();
            let mut t: usize = 0;
            while t < n
                invariant
                    z.wf(),
                    n == pts@.len(),
                    forall|u: int| 0 <= u < n ==> (#[trigger] pts@[u]).wf(),
                    forall|u: int|
                        0 <= u < n ==> (#[trigger] pts@[u])@ == coset_point(log_max as nat, u),
                    t <= n,
                    diffs@.len() == t,
                    forall|u: int| 0 <= u < t ==> (#[trigger] diffs@[u]).wf(),
                    forall|u: int|
                        0 <= u < t ==> (#[trigger] diffs@[u])@ == esub(
                            efrom(coset_point(log_max as nat, u)),
                            z@,
                        ),
                decreases n - t,
            {
                let d = Ext::from_base(pts[t]).sub(z);
                diffs.push(d);
                t = t + 1;
            }
            let invs = crate::ext::batch_inverse(&diffs);
            proof {
                assert forall|u: int| 0 <= u < n implies (#[trigger] invs@[u]).wf() && invs@[u]@
                    == crate::interpolation::einv0(
                    esub(efrom(coset_point(log_max as nat, u)), z@),
                ) by {
                    if diffs@[u]@ == ezero() {
                    } else {
                    }
                }
            }
            out.push(PointInvs { z, invs });
        }
        proof {
            assert forall|a: int, b: int| 0 <= a < b < out@.len() implies (#[trigger] out@[a]).z
                != (#[trigger] out@[b]).z by {
                if b < out0.len() {
                } else {
                    assert(b == out0.len() && !found);
                    assert(out@[a].z != z);
                }
            }
            if found {
                widx = widx.push(found_at as int);
            } else {
                widx = widx.push(out0.len() as int);
            }
            assert forall|t: int| 0 <= t < i + 1 implies 0 <= #[trigger] widx[t] < out@.len()
                && out@[widx[t]].z == zs@[t] by {
                if t < i {
                } else {
                    assert(widx[t] == widx.last());
                }
            }
        }
        i = i + 1;
    }
    proof {
        assert forall|i2: int| 0 <= i2 < zs@.len() implies covers(out@, #[trigger] zs@[i2]) by {
            let e0 = widx[i2];
            assert(0 <= e0 < out@.len() && out@[e0].z == zs@[i2]);
        }
    }
    out
}

impl TwoAdicFriPcs {
    pub fn new(fri: FriConfig) -> (r: TwoAdicFriPcs)
        ensures
            r.fri == fri,
    {
        TwoAdicFriPcs { fri }
    }

    /// The shift of the coset that committed evaluations live on.
    pub fn coset_shift(&self) -> (r: Fp)
        ensures
            r.wf(),
            r@ == GENERATOR as int,
    {
        Fp::new(GENERATOR)
    }

    pub fn log_blowup(&self) -> (r: usize)
        ensures
            r == self.fri.log_blowup,
    {
        self.fri.log_blowup
    }

    /// The low-degree extension of each polynomial onto the committed
    /// coset, in natural row order: each input column is carried from its
    /// own coset (shifted by the matching entry of `coset_shifts`) onto
    /// the coset of the whole field generator, blown up by the config's
    /// factor.
    pub fn compute_coset_ldes_batches(
        &self,
        polynomials: &Vec<FpMat>,
        coset_shifts: &Vec<Fp>,
    ) -> (r: Vec<FpMat>)
        requires
            self.fri.wf(),
            coset_shifts@.len() == polynomials@.len(),
            forall|i: int| 0 <= i < coset_shifts@.len() ==> (#[trigger] coset_shifts@[i]).wf(),
            forall|i: int| 0 <= i < polynomials@.len() ==> (#[trigger] polynomials@[i]).wf(),
            forall|i: int|
                0 <= i < polynomials@.len() ==> lde_ready(
                    #[trigger] polynomials@[i],
                    self.fri.log_blowup as int,
                ),
        ensures
            r@.len() == polynomials@.len(),
            forall|i: int| 0 <= i < r@.len() ==> (#[trigger] r@[i]).wf(),
            forall|i: int|
                0 <= i < r@.len() ==> (#[trigger] r@[i]).width == polynomials@[i].width && r@[i].h()
                    == polynomials@[i].h() * pow2(self.fri.log_blowup as nat),
            forall|i: int, coeffs: Seq<int>, c: int|
                0 <= i < r@.len() && 0 <= c < polynomials@[i].width && #[trigger] col_is_poly(
                    polynomials@[i],
                    c,
                    coeffs,
                ) ==> crate::dft::col_is_coset_poly(
                    r@[i],
                    c,
                    coeffs,
                    fmul(GENERATOR as int, crate::field::finv0(coset_shifts@[i]@)),
                ),
    {
        let mut out: Vec<FpMat> = Vec::new();
        let mut i: usize = 0;
        while i < polynomials.len()
            invariant
                self.fri.wf(),
                coset_shifts@.len() == polynomials@.len(),
                forall|t: int| 0 <= t < coset_shifts@.len() ==> (#[trigger] coset_shifts@[t]).wf(),
                forall|t: int| 0 <= t < polynomials@.len() ==> (#[trigger] polynomials@[t]).wf(),
                forall|t: int|
                    0 <= t < polynomials@.len() ==> lde_ready(
                        #[trigger] polynomials@[t],
                        self.fri.log_blowup as int,
                    ),
                i <= polynomials@.len(),
                out@.len() == i,
                forall|t: int| 0 <= t < i ==> (#[trigger] out@[t]).wf(),
                forall|t: int|
                    0 <= t < i ==> (#[trigger] out@[t]).width == polynomials@[t].width
                        && out@[t].h() == polynomials@[t].h() * pow2(self.fri.log_blowup as nat),
                forall|t: int, coeffs: Seq<int>, c: int|
                    0 <= t < i && 0 <= c < polynomials@[t].width && #[trigger] col_is_poly(
                        polynomials@[t],
                        c,
                        coeffs,
                    ) ==> crate::dft::col_is_coset_poly(
                        out@[t],
                        c,
                        coeffs,
                        fmul(GENERATOR as int, crate::field::finv0(coset_shifts@[t]@)),
                    ),
            decreases polynomials@.len() - i,
        {
            let shift = Fp::new(GENERATOR).mul(coset_shifts[i].inverse());
            proof {
                let k = choose|k: nat|
                    k + self.fri.log_blowup <= 27 && #[trigger] pow2(k) == polynomials@[
                    i as int].h();
                assert(k <= 27 && pow2(k) == polynomials@[i as int].h() && k
                    + self.fri.log_blowup <= 27);
            }
            let lde = coset_lde_batch(&polynomials[i], self.fri.log_blowup, shift);
            out.push(lde);
            i = i + 1;
        }
        out
    }

    /// Commits to a batch of polynomials given on shifted cosets: their
    /// low-degree extensions are computed, the rows are put into
    /// bit-reversed order, and the batch is committed.
    pub fn commit_shifted_batches(
        &self,
        polynomials: &Vec<FpMat>,
        coset_shifts: &Vec<Fp>,
    ) -> (r: (BatchCommitment, BatchProverData))
        requires
            self.fri.wf(),
            polynomials@.len() >= 1,
            coset_shifts@.len() == polynomials@.len(),
            forall|i: int| 0 <= i < coset_shifts@.len() ==> (#[trigger] coset_shifts@[i]).wf(),
            forall|i: int| 0 <= i < polynomials@.len() ==> (#[trigger] polynomials@[i]).wf(),
            forall|i: int|
                0 <= i < polynomials@.len() ==> lde_ready(
                    #[trigger] polynomials@[i],
                    self.fri.log_blowup as int,
                ),
        ensures
            crate::mmcs::mats_equiv(r.0.mats@, r.1.mats@),
            r.1.mats@.len() == polynomials@.len(),
            wf_batch(r.1.mats@),
            forall|m: int|
                0 <= m < polynomials@.len() ==> (#[trigger] r.1.mats@[m]).width == polynomials@[
                    m].width && r.1.mats@[m].h() == polynomials@[m].h() * pow2(
                    self.fri.log_blowup as nat,
                ),
            forall|m: int, coeffs: Seq<int>, c: int|
                0 <= m < polynomials@.len() && 0 <= c < polynomials@[m].width
                    && #[trigger] col_is_poly(polynomials@[m], c, coeffs) ==> bitrev_coset_col(
                    r.1.mats@[m],
                    c,
                    coeffs,
                    fmul(GENERATOR as int, crate::field::finv0(coset_shifts@[m]@)),
                ),
    {
        let ldes = self.compute_coset_ldes_batches(polynomials, coset_shifts);
        let mut mats: Vec<FpMat> = Vec::new();
        let ghost mut kws: Seq<nat> = Seq::empty();
        let mut i: usize = 0;
        while i < ldes.len()
            invariant
                self.fri.wf(),
                polynomials@.len() == coset_shifts@.len(),
                ldes@.len() == polynomials@.len(),
                forall|t: int| 0 <= t < polynomials@.len() ==> (#[trigger] polynomials@[t]).wf(),
                forall|t: int|
                    0 <= t < polynomials@.len() ==> lde_ready(
                        #[trigger] polynomials@[t],
                        self.fri.log_blowup as int,
                    ),
                forall|t: int| 0 <= t < ldes@.len() ==> (#[trigger] ldes@[t]).wf(),
                forall|t: int|
                    0 <= t < ldes@.len() ==> (#[trigger] ldes@[t]).width == polynomials@[t].width
                        && ldes@[t].h() == polynomials@[t].h() * pow2(self.fri.log_blowup as nat),
                forall|t: int, coeffs: Seq<int>, c: int|
                    0 <= t < ldes@.len() && 0 <= c < polynomials@[t].width && #[trigger] col_is_poly(
                        polynomials@[t],
                        c,
                        coeffs,
                    ) ==> crate::dft::col_is_coset_poly(
                        ldes@[t],
                        c,
                        coeffs,
                        fmul(GENERATOR as int, crate::field::finv0(coset_shifts@[t]@)),
                    ),
                i <= ldes@.len(),
                mats@.len() == i,
                forall|t: int| 0 <= t < i ==> (#[trigger] mats@[t]).wf(),
                forall|t: int|
                    0 <= t < i ==> (#[trigger] mats@[t]).width == polynomials@[t].width
                        && mats@[t].h() == polynomials@[t].h() * pow2(self.fri.log_blowup as nat),
                kws.len() == i,
                forall|t: int|
                    0 <= t < i ==> #[trigger] kws[t] < 30 && mats@[t].h() == pow2(kws[t]),
                forall|t: int, coeffs: Seq<int>, c: int|
                    0 <= t < i && 0 <= c < polynomials@[t].width && #[trigger] col_is_poly(
                        polynomials@[t],
                        c,
                        coeffs,
                    ) ==> bitrev_coset_col(
                        mats@[t],
                        c,
                        coeffs,
                        fmul(GENERATOR as int, crate::field::finv0(coset_shifts@[t]@)),
                    ),
            decreases ldes@.len() - i,
        {
            let ghost kp = choose|k: nat|
                k + self.fri.log_blowup <= 27 && #[trigger] pow2(k) == polynomials@[i as int].h();
            proof {
                lemma_pow2_adds(kp, self.fri.log_blowup as nat);
            }
            let rev = bit_reverse_rows(&ldes[i], Ghost((kp + self.fri.log_blowup) as nat));
            proof {
                crate::mmcs::lemma_log2_of((kp + self.fri.log_blowup) as nat);
                assert forall|coeffs: Seq<int>, c: int|
                    0 <= c < polynomials@[i as int].width && #[trigger] col_is_poly(
                        polynomials@[i as int],
                        c,
                        coeffs,
                    ) implies bitrev_coset_col(
                    rev,
                    c,
                    coeffs,
                    fmul(GENERATOR as int, crate::field::finv0(coset_shifts@[i as int]@)),
                ) by {
                    assert forall|j: int| 0 <= j < rev.h() implies #[trigger] rev.at(j, c)
                        == fpoly_eval(
                        coeffs,
                        fmul(
                            fmul(GENERATOR as int, crate::field::finv0(coset_shifts@[i as int]@)),
                            fpow(
                                two_adic_gen(log2_of(rev.h() as nat)),
                                rev_bits(j as nat, log2_of(rev.h() as nat)),
                            ),
                        ),
                    ) by {
                        crate::bits::lemma_rev_bits_bound(
                            j as nat,
                            (kp + self.fri.log_blowup) as nat,
                        );
                        assert(rev.at(j, c) == ldes@[i as int].at(
                            rev_bits(j as nat, (kp + self.fri.log_blowup) as nat) as int,
                            c,
                        ));
                    }
                }
            }
            mats.push(rev);
            proof {
                kws = kws.push((kp + self.fri.log_blowup) as nat);
                assert(mats@[mats@.len() - 1].h() == pow2((kp + self.fri.log_blowup) as nat));
                assert(kp + self.fri.log_blowup < 30);
            }
            i = i + 1;
        }
        proof {
            assert(mats@.len() >= 1);
            assert(forall|mm: int| 0 <= mm < mats@.len() ==> (#[trigger] mats@[mm]).wf());
            assert forall|mm: int| 0 <= mm < mats@.len() implies crate::mmcs::pow2_height(
                #[trigger] mats@[mm],
            ) by {
                let kw = kws[mm];
                assert(kw < 30 && pow2(kw) == mats@[mm].h());
            }
            assert(wf_batch(mats@));
        }
        let (c, d) = batch_commit(mats);
        (c, d)
    }

    /// Commits to a batch of polynomials given on the canonical subgroup.
    pub fn commit_batches(&self, polynomials: &Vec<FpMat>) -> (r: (
        BatchCommitment,
        BatchProverData,
    ))
        requires
            self.fri.wf(),
            polynomials@.len() >= 1,
            forall|i: int| 0 <= i < polynomials@.len() ==> (#[trigger] polynomials@[i]).wf(),
            forall|i: int|
                0 <= i < polynomials@.len() ==> lde_ready(
                    #[trigger] polynomials@[i],
                    self.fri.log_blowup as int,
                ),
        ensures
            crate::mmcs::mats_equiv(r.0.mats@, r.1.mats@),
            r.1.mats@.len() == polynomials@.len(),
            wf_batch(r.1.mats@),
            forall|m: int|
                0 <= m < polynomials@.len() ==> (#[trigger] r.1.mats@[m]).width == polynomials@[
                    m].width && r.1.mats@[m].h() == polynomials@[m].h() * pow2(
                    self.fri.log_blowup as nat,
                ),
            forall|m: int, coeffs: Seq<int>, c: int|
                0 <= m < polynomials@.len() && 0 <= c < polynomials@[m].width
                    && #[trigger] col_is_poly(polynomials@[m], c, coeffs) ==> bitrev_coset_col(
                    r.1.mats@[m],
                    c,
                    coeffs,
                    GENERATOR as int,
                ),
    {
        let mut ones: Vec<Fp> = Vec::new();
        let mut i: usize = 0;
        while i < polynomials.len()
            invariant
                i <= polynomials@.len(),
                ones@.len() == i,
                forall|t: int| 0 <= t < i ==> (#[trigger] ones@[t]).wf(),
                forall|t: int| 0 <= t < i ==> (#[trigger] ones@[t])@ == 1,
            decreases polynomials@.len() - i,
        {
            ones.push(Fp::one());
            i = i + 1;
        }
        let r = self.commit_shifted_batches(polynomials, &ones);
        proof {
            assert(crate::field::fmul(1, 1) == 1) by {
                vstd::arithmetic::div_mod::lemma_small_mod(1, crate::field::P as nat);
            };
            crate::field::lemma_finv_unique(1, 1);
            assert(crate::field::finv0(1int) == 1);
            assert(fmul(GENERATOR as int, 1) == GENERATOR as int) by {
                vstd::arithmetic::div_mod::lemma_small_mod(
                    GENERATOR as nat,
                    crate::field::P as nat,
                );
            };
        }
        r
    }

    /// The committed low-degree extensions, each handed back as the
    /// bit-reversed reading of its retained matrix (which restores
    /// natural row order).
    pub fn get_ldes(&self, prover_data: &BatchProverData) -> (r: Vec<FpMat>)
        requires
            wf_batch(prover_data.mats@),
        ensures
            r@.len() == prover_data.mats@.len(),
            forall|m: int| 0 <= m < r@.len() ==> (#[trigger] r@[m]).wf(),
            forall|m: int|
                0 <= m < r@.len() ==> is_bit_reversed_of(
                    #[trigger] r@[m],
                    prover_data.mats@[m],
                    log2_of(prover_data.mats@[m].h() as nat),
                ),
    {
        let mut out: Vec<FpMat> = Vec::new();
        let mut m: usize = 0;
        while m < prover_data.mats.len()
            invariant
                wf_batch(prover_data.mats@),
                m <= prover_data.mats@.len(),
                out@.len() == m,
                forall|t: int| 0 <= t < m ==> (#[trigger] out@[t]).wf(),
                forall|t: int|
                    0 <= t < m ==> is_bit_reversed_of(
                        #[trigger] out@[t],
                        prover_data.mats@[t],
                        log2_of(prover_data.mats@[t].h() as nat),
                    ),
            decreases prover_data.mats@.len() - m,
        {
            let ghost km = choose|k: nat|
                k < 30 && (#[trigger] prover_data.mats@[m as int]).h() == pow2(k);
            proof {
                crate::mmcs::lemma_log2_of(km);
            }
            let rev = bit_reverse_rows(&prover_data.mats[m], Ghost(km));
            out.push(rev);
            m = m + 1;
        }
        out
    }
}

/// The natural-order reading of the low coset retained inside a
/// committed bit-reversed extension: row `j` is the committed row whose
/// index has the reversed bits of `j`.
pub open spec fn low_rows(mat: FpMat, m_bits: nat) -> Seq<Seq<int>> {
    Seq::new(
        pow2(m_bits) as nat,
        |j: int| Seq::new(mat.width as nat, |c: int| mat.at(rev_bits(j as nat, m_bits) as int, c)),
    )
}

/// Reconstructs, in natural row order, the evaluations over the original
/// (unblown) coset that a committed bit-reversed extension retains as its
/// leading rows.
pub fn low_coset_natural(mat: &FpMat, lb: usize, Ghost(km): Ghost<nat>) -> (r: FpMat)
    requires
        mat.wf(),
        mat.h() == pow2(km),
        lb <= km,
        km < 30,
    ensures
        r.wf(),
        r.width == mat.width,
        r.h() == pow2((km - lb) as nat),
        crate::interpolation::rows_of(r) == low_rows(*mat, (km - lb) as nat),
{
    let ghost m_bits = (km - lb) as nat;
    let h = mat.height();
    let w = mat.width;
    proof {
        crate::mmcs::lemma_log2_of(km);
    }
    let log_h = log2_strict(h, Ghost(km));
    let hp = pow2_usize(log_h - lb);
    proof {
        mat.lemma_size();
        lemma_pow2_adds(m_bits, lb as nat);
        lemma_pow2_pos(lb as nat);
        lemma_pow2_pos(m_bits);
        assert(h == pow2(m_bits) * pow2(lb as nat));
        assert(hp == pow2(m_bits));
        assert(hp <= h) by (nonlinear_arith)
            requires
                hp == pow2(m_bits),
                h == pow2(m_bits) * pow2(lb as nat),
                pow2(lb as nat) >= 1,
        ;
    }
    let mut values: Vec<Fp> = Vec::new();
    let mut j: usize = 0;
    while j < hp
        invariant
            mat.wf(),
            mat.h() == pow2(km),
            km < 30,
            m_bits == km - lb,
            m_bits <= km,
            h == mat.h(),
            w == mat.width,
            hp == pow2(m_bits),
            hp <= h,
            j <= hp,
            values@.len() == j * (w as int),
            forall|i: int| 0 <= i < values@.len() ==> (#[trigger] values@[i]).wf(),
            forall|i: int|
                0 <= i < values@.len() ==> #[trigger] values@[i] == mat.entry(
                    rev_bits((i / (w as int)) as nat, m_bits) as int,
                    i % (w as int),
                ),
        decreases hp - j,
    {
        proof {
            crate::bits::lemma_rev_bits_bound(j as nat, m_bits);
            lemma_pow2_strictly_increases_or_eq(m_bits, km);
        }
        let ghost mbu = m_bits;
        let log_hp = log2_strict(hp, Ghost(m_bits));
        let rj = reverse_bits_len(j, log_hp);
        let row = mat.row(rj);
        let mut c: usize = 0;
        while c < row.len()
            invariant
                mat.wf(),
                j < hp,
                hp <= h,
                h == mat.h(),
                w == mat.width,
                m_bits == mbu,
                row@.len() == w,
                forall|t: int|
                    0 <= t < row@.len() ==> #[trigger] row@[t] == mat.entry(
                        rev_bits(j as nat, m_bits) as int,
                        t,
                    ),
                forall|t: int| 0 <= t < row@.len() ==> (#[trigger] row@[t]).wf(),
                c <= w,
                values@.len() == j * (w as int) + c,
                forall|i: int| 0 <= i < values@.len() ==> (#[trigger] values@[i]).wf(),
                forall|i: int|
                    0 <= i < values@.len() ==> #[trigger] values@[i] == mat.entry(
                        rev_bits((i / (w as int)) as nat, m_bits) as int,
                        i % (w as int),
                    ),
            decreases row@.len() - c,
        {
            proof {
                vstd::arithmetic::div_mod::lemma_fundamental_div_mod_converse(
                    (j * (w as int)) + c,
                    w as int,
                    j as int,
                    c as int,
                );
            }
            values.push(row[c]);
            c = c + 1;
        }
        j = j + 1;
        proof {
            assert(values@.len() == j * (w as int)) by {
                vstd::arithmetic::mul::lemma_mul_is_distributive_add_other_way(
                    w as int,
                    j - 1,
                    1,
                );
            };
        }
    }
    let r = FpMat { values, width: w };
    proof {
        vstd::arithmetic::div_mod::lemma_mod_multiples_basic(hp as int, w as int);
        vstd::arithmetic::mul::lemma_mul_is_commutative(hp as int, w as int);
        assert(r.wf());
        assert(r.h() == hp as int) by {
            vstd::arithmetic::div_mod::lemma_div_multiples_vanish(hp as int, w as int);
            vstd::arithmetic::mul::lemma_mul_is_commutative(hp as int, w as int);
        };
        assert forall|jj: int, cc: int| 0 <= jj < hp && 0 <= cc < w implies #[trigger] r.at(jj, cc)
            == mat.at(rev_bits(jj as nat, m_bits) as int, cc) by {
            crate::matrix::lemma_rc_index(w as int, hp as int, jj, cc);
            let i = jj * (w as int) + cc;
            vstd::arithmetic::div_mod::lemma_fundamental_div_mod_converse(i, w as int, jj, cc);
            assert(values@[i] == mat.entry(rev_bits(jj as nat, m_bits) as int, cc));
            crate::bits::lemma_rev_bits_bound(jj as nat, m_bits);
        }
        assert(crate::interpolation::rows_of(r) =~= low_rows(*mat, m_bits)) by {
            assert forall|jj: int| 0 <= jj < hp implies crate::interpolation::rows_of(r)[jj]
                =~= low_rows(*mat, m_bits)[jj] by {
                assert forall|cc: int| 0 <= cc < w implies crate::interpolation::rows_of(r)[jj][cc]
                    == low_rows(*mat, m_bits)[jj][cc] by {
                    assert(crate::interpolation::rows_of(r)[jj][cc] == r.at(jj, cc));
                    assert(low_rows(*mat, m_bits)[jj][cc] == mat.at(
                        rev_bits(jj as nat, m_bits) as int,
                        cc,
                    ));
                }
            }
        };
    }
    r
}

/// Powers of two do not decrease with the exponent.
proof fn lemma_pow2_strictly_increases_or_eq(a: nat, b: nat)
    requires
        a <= b,
    ensures
        pow2(a) <= pow2(b),
{
    if a < b {
        lemma_pow2_strictly_increases(a, b);
    }
}

/// The matrix's height is a power of two strictly between the final
/// codeword size and the field's two-adicity.
pub open spec fn pcs_height_ok(m: FpMat, fri: FriConfig) -> bool {
    exists|k: nat|
        fri.log_blowup + fri.log_final_poly_len < k <= 27 && #[trigger] pow2(k) == m.h()
}

/// The caller's obligations on a family of committed batches and their
/// opening points: at least one batch, every batch well-formed, one
/// nonempty point list per matrix, and every committed height within the
/// protocol's range.
pub open spec fn wf_pcs_rounds(
    data: Seq<BatchProverData>,
    points: Seq<Vec<Vec<Ext>>>,
    fri: FriConfig,
) -> bool {
    &&& data.len() >= 1
    &&& points.len() == data.len()
    &&& forall|r: int| 0 <= r < data.len() ==> wf_batch((#[trigger] data[r]).mats@)
    &&& forall|r: int| 0 <= r < data.len() ==> (#[trigger] points[r])@.len() == data[r].mats@.len()
    &&& forall|r: int, m: int|
        0 <= r < data.len() && 0 <= m < points[r]@.len() ==> (#[trigger] points[r]@[m])@.len() >= 1
    &&& forall|r: int, m: int, p: int|
        0 <= r < data.len() && 0 <= m < points[r]@.len() && 0 <= p < points[r]@[m]@.len()
            ==> (#[trigger] points[r]@[m]@[p]).wf()
    &&& forall|r: int, m: int|
        0 <= r < data.len() && 0 <= m < data[r].mats@.len() ==> pcs_height_ok(
            #[trigger] data[r].mats@[m],
            fri,
        )
}

/// The largest committed height across a family of batches.
pub open spec fn global_max_h(data: Seq<BatchProverData>) -> int
    decreases data.len(),
{
    if data.len() == 0 {
        0
    } else if global_max_h(data.drop_last()) >= crate::mmcs::batch_max_h(data.last().mats@) {
        global_max_h(data.drop_last())
    } else {
        crate::mmcs::batch_max_h(data.last().mats@)
    }
}

/// An opened batch row carries, for every matrix of the batch, exactly
/// the committed row under the height-scaled index.
pub open spec fn batch_opening_ok(bo: BatchOpening, mats: Seq<FpMat>, index: int) -> bool {
    &&& bo.opened_values@.len() == mats.len()
    &&& forall|m: int|
        0 <= m < mats.len() ==> (#[trigger] bo.opened_values@[m])@.len() == mats[m].width
    &&& forall|m: int, c: int|
        0 <= m < mats.len() && 0 <= c < mats[m].width ==> #[trigger] bo.opened_values@[m]@[c]
            == mats[m].entry(
            crate::mmcs::open_idx(index, crate::mmcs::batch_max_h(mats), mats[m].h()),
            c,
        )
}

/// The row of a batch that a global query index selects: the index
/// shifted down by the difference between the global height exponent and
/// the batch's.
pub open spec fn reduced_idx_s(idx: int, kglob: nat, mats: Seq<FpMat>) -> int {
    idx / (pow2((kglob - log2_of(crate::mmcs::batch_max_h(mats) as nat)) as nat) as int)
}

/// Column `c` of the bit-reversed matrix `mat` holds, at row `j`, the
/// polynomial's value at `shift` times the generator power selected by
/// the bit-reversed row index.
pub open spec fn bitrev_coset_col(mat: FpMat, c: int, coeffs: Seq<int>, shift: int) -> bool {
    forall|j: int|
        0 <= j < mat.h() ==> #[trigger] mat.at(j, c) == fpoly_eval(
            coeffs,
            fmul(
                shift,
                fpow(
                    two_adic_gen(log2_of(mat.h() as nat)),
                    rev_bits(j as nat, log2_of(mat.h() as nat)),
                ),
            ),
        )
}


/// Every batch's largest height is at most the family's.
proof fn lemma_global_max_ge(data: Seq<BatchProverData>, r: int)
    requires
        0 <= r < data.len(),
    ensures
        crate::mmcs::batch_max_h(data[r].mats@) <= global_max_h(data),
    decreases data.len(),
{
    if r < data.len() - 1 {
        lemma_global_max_ge(data.drop_last(), r);
        assert(data.drop_last()[r] == data[r]);
    }
}

impl TwoAdicFriPcs {
    /// Opens, at every requested point, every matrix of every committed
    /// batch, and proves all openings at once: the claimed values are
    /// computed by barycentric interpolation, all quotients are combined
    /// by powers of one transcript challenge into one reduced codeword
    /// per height, a single FRI run proves the combined codewords, and
    /// every sampled query index is answered with one opened row per
    /// batch. Returns the claimed values, the proof and the sampled
    /// query indices.
    #[verifier::rlimit(100)]
    pub fn open_multi_batches(
        &self,
        data: &Vec<BatchProverData>,
        points: &Vec<Vec<Vec<Ext>>>,
        challenger: &mut Challenger,
    ) -> (r: Result<(Vec<Vec<Vec<Vec<Ext>>>>, TwoAdicFriPcsProof, Vec<usize>), ProverError>)
        requires
            self.fri.wf(),
            old(challenger).wf(),
            wf_pcs_rounds(data@, points@, self.fri),
        ensures
            final(challenger).wf(),
            r matches Err(e) ==> (e == ProverError::FinalPolyTailNonZero || e
                == ProverError::TooManyOpenings),
            r matches Err(e) ==> (e == ProverError::FinalPolyTailNonZero ==> exists|
                ws: Seq<Vec<Ext>>,
                ks2: Seq<nat>,
            |
                #[trigger] crate::prover::wf_inputs(ws, ks2, self.fri)
                    && crate::prover::has_high_coeff(
                    crate::prover::cp_coeffs(
                        crate::prover::input_views(ws),
                        ks2,
                        squeeze4_state(old(challenger).st@),
                        self.fri,
                    ),
                    pow2(self.fri.log_final_poly_len as nat) as int,
                )),
            r matches Ok(out) ==> {
                let kglob = log2_of(global_max_h(data@) as nat);
                &&& out.0@.len() == data@.len()
                &&& forall|rd: int|
                    0 <= rd < data@.len() ==> (#[trigger] out.0@[rd])@.len()
                        == data@[rd].mats@.len()
                &&& forall|rd: int, m: int|
                    0 <= rd < data@.len() && 0 <= m < data@[rd].mats@.len()
                        ==> (#[trigger] out.0@[rd]@[m])@.len() == points@[rd]@[m]@.len()
                &&& forall|rd: int, m: int, p: int|
                    0 <= rd < data@.len() && 0 <= m < data@[rd].mats@.len() && 0 <= p < points@[
                        rd]@[m]@.len() ==> (#[trigger] out.0@[rd]@[m]@[p])@.len() == data@[
                        rd].mats@[m].width
                &&& forall|rd: int, m: int, p: int, c: int|
                    0 <= rd < data@.len() && 0 <= m < data@[rd].mats@.len() && 0 <= p < points@[
                        rd]@[m]@.len() && 0 <= c < data@[rd].mats@[m].width
                        ==> (#[trigger] out.0@[rd]@[m]@[p]@[c])@ == crate::interpolation::interp_eval(
                        low_rows(
                            data@[rd].mats@[m],
                            (log2_of(data@[rd].mats@[m].h() as nat)
                                - self.fri.log_blowup) as nat,
                        ),
                        c,
                        GENERATOR as int,
                        points@[rd]@[m]@[p]@,
                    )
                &&& out.2@.len() == self.fri.num_queries
                &&& out.1.query_openings@.len() == self.fri.num_queries
                &&& forall|q: int|
                    0 <= q < self.fri.num_queries ==> (#[trigger] out.1.query_openings@[q])@.len()
                        == data@.len()
                &&& forall|q: int, rd: int|
                    0 <= q < self.fri.num_queries && 0 <= rd < data@.len()
                        ==> batch_opening_ok(
                        #[trigger] out.1.query_openings@[q]@[rd],
                        data@[rd].mats@,
                        reduced_idx_s(out.2@[q] as int, kglob, data@[rd].mats@),
                    )
                &&& out.1.fri_proof.query_proofs@.len() == self.fri.num_queries
                &&& out.1.fri_proof.final_poly@.len() == pow2(
                    (self.fri.log_blowup + self.fri.log_final_poly_len) as nat,
                )
                &&& forall|j: int|
                    pow2(self.fri.log_final_poly_len as nat) <= j
                        < out.1.fri_proof.final_poly@.len()
                        ==> (#[trigger] out.1.fri_proof.final_poly@[j])@ == ezero()
            },
    {
        let ghost s0 = old(challenger).st@;
        let stop_bits = self.fri.log_blowup + self.fri.log_final_poly_len;
        let nrounds = data.len();

        // The batching challenge.
        let alpha = challenger.sample_ext();

        // The widest matrix anywhere, for the power table.
        let mut max_width: usize = 1;
        let mut rd: usize = 0;
        while rd < nrounds
            invariant
                wf_pcs_rounds(data@, points@, self.fri),
                nrounds == data@.len(),
                rd <= nrounds,
                max_width >= 1,
                forall|r2: int, m2: int|
                    0 <= r2 < rd && 0 <= m2 < data@[r2].mats@.len()
                        ==> (#[trigger] data@[r2].mats@[m2]).width <= max_width,
            decreases nrounds - rd,
        {
            let mats = &data[rd].mats;
            let mut m: usize = 0;
            while m < mats.len()
                invariant
                    wf_pcs_rounds(data@, points@, self.fri),
                    nrounds == data@.len(),
                    rd < nrounds,
                    mats == &data@[rd as int].mats,
                    m <= mats@.len(),
                    max_width >= 1,
                    forall|r2: int, m2: int|
                        0 <= r2 < rd && 0 <= m2 < data@[r2].mats@.len()
                            ==> (#[trigger] data@[r2].mats@[m2]).width <= max_width,
                    forall|m2: int|
                        0 <= m2 < m ==> (#[trigger] data@[rd as int].mats@[m2]).width <= max_width,
                decreases mats@.len() - m,
            {
                let w = mats[m].width;
                if w > max_width {
                    max_width = w;
                }
                m = m + 1;
            }
            rd = rd + 1;
        }
        let reducer = PowersReducer::new(alpha, max_width);

        // The largest committed height anywhere, and its exponent.
        let mut nmax: usize = 0;
        let ghost mut kglob: nat = 0nat;
        let mut rd2: usize = 0;
        while rd2 < nrounds
            invariant
                wf_pcs_rounds(data@, points@, self.fri),
                nrounds == data@.len(),
                rd2 <= nrounds,
                nmax == global_max_h(data@.take(rd2 as int)),
                rd2 > 0 ==> nmax >= 1 && stop_bits < kglob <= 27 && nmax == pow2(kglob),
                stop_bits == self.fri.log_blowup + self.fri.log_final_poly_len,
            decreases nrounds - rd2,
        {
            proof {
                assert(data@.take(rd2 + 1).drop_last() =~= data@.take(rd2 as int));
                assert(data@.take(rd2 + 1).last() == data@[rd2 as int]);
                crate::mmcs::lemma_batch_max_h_witness(data@[rd2 as int].mats@);
            }
            let ghost mw = choose|m: int|
                0 <= m < data@[rd2 as int].mats@.len() && crate::mmcs::batch_max_h(
                    data@[rd2 as int].mats@,
                ) == (#[trigger] data@[rd2 as int].mats@[m]).h();
            let ghost kw = choose|k: nat|
                self.fri.log_blowup + self.fri.log_final_poly_len < k <= 27 && #[trigger] pow2(k)
                    == data@[rd2 as int].mats@[mw].h();
            proof {
                lemma_pow2_pos(kw);
            }
            let bmh = crate::mmcs::batch_max_height(&data[rd2].mats);
            proof {
                assert(bmh == pow2(kw));
                assert(bmh >= 1);
            }
            if bmh > nmax {
                proof {
                    kglob = kw;
                }
                nmax = bmh;
            }
            rd2 = rd2 + 1;
        }
        proof {
            assert(data@.take(nrounds as int) =~= data@);
            crate::mmcs::lemma_log2_of(kglob);
        }
        let log_global = log2_strict(nmax, Ghost(kglob));

        // All distinct opening points, and their inverse denominators
        // over the largest coset.
        let mut zs: Vec<Ext> = Vec::new();
        let mut rd3: usize = 0;
        while rd3 < nrounds
            invariant
                wf_pcs_rounds(data@, points@, self.fri),
                nrounds == data@.len(),
                rd3 <= nrounds,
                forall|t: int| 0 <= t < zs@.len() ==> (#[trigger] zs@[t]).wf(),
            decreases nrounds - rd3,
        {
            let pr = &points[rd3];
            let mut m: usize = 0;
            while m < pr.len()
                invariant
                    wf_pcs_rounds(data@, points@, self.fri),
                    nrounds == data@.len(),
                    rd3 < nrounds,
                    pr == &points@[rd3 as int],
                    m <= pr@.len(),
                    forall|t: int| 0 <= t < zs@.len() ==> (#[trigger] zs@[t]).wf(),
                decreases pr@.len() - m,
            {
                let pm2 = &pr[m];
                let mut p: usize = 0;
                while p < pm2.len()
                    invariant
                        wf_pcs_rounds(data@, points@, self.fri),
                        nrounds == data@.len(),
                        rd3 < nrounds,
                        pr == &points@[rd3 as int],
                        m < pr@.len(),
                        pm2 == &points@[rd3 as int]@[m as int],
                        p <= pm2@.len(),
                        forall|t: int| 0 <= t < zs@.len() ==> (#[trigger] zs@[t]).wf(),
                    decreases pm2@.len() - p,
                {
                    zs.push(pm2[p]);
                    p = p + 1;
                }
                m = m + 1;
            }
            rd3 = rd3 + 1;
        }
        let inv_denoms = compute_inverse_denominators(&zs, log_global);

        // The reduced codeword accumulators, one per height exponent.
        let mut reduced: Vec<Vec<Ext>> = Vec::new();
        let mut num_reduced: Vec<u64> = Vec::new();
        let mut lh0: usize = 0;
        while lh0 < 28
            invariant
                lh0 <= 28,
                reduced@.len() == lh0,
                num_reduced@.len() == lh0,
                forall|t: int| 0 <= t < lh0 ==> (#[trigger] reduced@[t])@.len() == 0,
                forall|t: int| 0 <= t < lh0 ==> (#[trigger] num_reduced@[t]) == 0,
            decreases 28 - lh0,
        {
            reduced.push(Vec::new());
            num_reduced.push(0);
            lh0 = lh0 + 1;
        }

        let mut all_vals: Vec<Vec<Vec<Vec<Ext>>>> = Vec::new();
        let mut rd4: usize = 0;
        while rd4 < nrounds
            invariant
                self.fri.wf(),
                wf_pcs_rounds(data@, points@, self.fri),
                nrounds == data@.len(),
                stop_bits == self.fri.log_blowup + self.fri.log_final_poly_len,
                stop_bits < kglob <= 27,
                nmax == pow2(kglob),
                log_global == kglob,
                kglob == log2_of(global_max_h(data@) as nat),
                nmax == global_max_h(data@),
                reducer.wf(),
                reducer.alpha == alpha,
                reducer.powers@.len() == max_width,
                forall|r2: int, m2: int|
                    0 <= r2 < nrounds && 0 <= m2 < data@[r2].mats@.len()
                        ==> (#[trigger] data@[r2].mats@[m2]).width <= max_width,
                forall|a: int, b: int|
                    0 <= a < b < inv_denoms@.len() ==> (#[trigger] inv_denoms@[a]).z
                        != (#[trigger] inv_denoms@[b]).z,
                forall|e: int|
                    0 <= e < inv_denoms@.len() ==> (#[trigger] inv_denoms@[e]).invs@.len() == pow2(
                        kglob,
                    ),
                forall|e: int, t: int|
                    0 <= e < inv_denoms@.len() && 0 <= t < pow2(kglob)
                        ==> (#[trigger] inv_denoms@[e].invs@[t]).wf(),
                challenger.wf(),
                challenger.st@ == squeeze4_state(s0),
                rd4 <= nrounds,
                reduced@.len() == 28,
                num_reduced@.len() == 28,
                forall|t: int|
                    0 <= t < 28 ==> (#[trigger] reduced@[t])@.len() == 0 || (stop_bits < t
                        <= kglob && reduced@[t]@.len() == pow2(t as nat)
                        && crate::mmcs::wf_ext_seq(reduced@[t]@)),
                rd4 > 0 ==> exists|t: int|
                    stop_bits < t <= kglob && (#[trigger] reduced@[t])@.len() == pow2(t as nat),
                all_vals@.len() == rd4,
                forall|r2: int|
                    0 <= r2 < rd4 ==> (#[trigger] all_vals@[r2])@.len() == data@[r2].mats@.len(),
                forall|r2: int, m2: int|
                    0 <= r2 < rd4 && 0 <= m2 < data@[r2].mats@.len()
                        ==> (#[trigger] all_vals@[r2]@[m2])@.len() == points@[r2]@[m2]@.len(),
                forall|r2: int, m2: int, p2: int|
                    0 <= r2 < rd4 && 0 <= m2 < data@[r2].mats@.len() && 0 <= p2 < points@[r2]@[
                        m2]@.len() ==> (#[trigger] all_vals@[r2]@[m2]@[p2])@.len() == data@[
                        r2].mats@[m2].width,
                forall|r2: int, m2: int, p2: int, c2: int|
                    0 <= r2 < rd4 && 0 <= m2 < data@[r2].mats@.len() && 0 <= p2 < points@[r2]@[
                        m2]@.len() && 0 <= c2 < data@[r2].mats@[m2].width
                        ==> (#[trigger] all_vals@[r2]@[m2]@[p2]@[c2])@
                        == crate::interpolation::interp_eval(
                        low_rows(
                            data@[r2].mats@[m2],
                            (log2_of(data@[r2].mats@[m2].h() as nat)
                                - self.fri.log_blowup) as nat,
                        ),
                        c2,
                        GENERATOR as int,
                        points@[r2]@[m2]@[p2]@,
                    ),
            decreases nrounds - rd4,
        {
            let mats = &data[rd4].mats;
            let mut round_vals: Vec<Vec<Vec<Ext>>> = Vec::new();
            proof {
                assert(challenger.wf());
            }
            let mut m: usize = 0;
            while m < mats.len()
                invariant
                    self.fri.wf(),
                    wf_pcs_rounds(data@, points@, self.fri),
                    nrounds == data@.len(),
                    rd4 < nrounds,
                    mats == &data@[rd4 as int].mats,
                    stop_bits == self.fri.log_blowup + self.fri.log_final_poly_len,
                    stop_bits < kglob <= 27,
                    nmax == pow2(kglob),
                    nmax == global_max_h(data@),
                    log_global == kglob,
                    reducer.wf(),
                    reducer.alpha == alpha,
                    reducer.powers@.len() == max_width,
                    forall|r2: int, m2: int|
                        0 <= r2 < nrounds && 0 <= m2 < data@[r2].mats@.len()
                            ==> (#[trigger] data@[r2].mats@[m2]).width <= max_width,
                    forall|e: int|
                        0 <= e < inv_denoms@.len() ==> (#[trigger] inv_denoms@[e]).invs@.len()
                            == pow2(kglob),
                    forall|e: int, t: int|
                        0 <= e < inv_denoms@.len() && 0 <= t < pow2(kglob)
                            ==> (#[trigger] inv_denoms@[e].invs@[t]).wf(),
                    reduced@.len() == 28,
                    num_reduced@.len() == 28,
                    forall|t: int|
                        0 <= t < 28 ==> (#[trigger] reduced@[t])@.len() == 0 || (stop_bits < t
                            <= kglob && reduced@[t]@.len() == pow2(t as nat)
                            && crate::mmcs::wf_ext_seq(reduced@[t]@)),
                    (rd4 > 0 || m > 0) ==> exists|t: int|
                        stop_bits < t <= kglob && (#[trigger] reduced@[t])@.len() == pow2(t as nat),
                    challenger.wf(),
                    challenger.st@ == squeeze4_state(s0),
                    m <= mats@.len(),
                    round_vals@.len() == m,
                    forall|m2: int|
                        0 <= m2 < m ==> (#[trigger] round_vals@[m2])@.len() == points@[
                            rd4 as int]@[m2]@.len(),
                    forall|m2: int, p2: int|
                        0 <= m2 < m && 0 <= p2 < points@[rd4 as int]@[m2]@.len()
                            ==> (#[trigger] round_vals@[m2]@[p2])@.len() == data@[
                            rd4 as int].mats@[m2].width,
                    forall|m2: int, p2: int, c2: int|
                        0 <= m2 < m && 0 <= p2 < points@[rd4 as int]@[m2]@.len() && 0 <= c2
                            < data@[rd4 as int].mats@[m2].width
                            ==> (#[trigger] round_vals@[m2]@[p2]@[c2])@
                            == crate::interpolation::interp_eval(
                            low_rows(
                                data@[rd4 as int].mats@[m2],
                                (log2_of(data@[rd4 as int].mats@[m2].h() as nat)
                                    - self.fri.log_blowup) as nat,
                            ),
                            c2,
                            GENERATOR as int,
                            points@[rd4 as int]@[m2]@[p2]@,
                        ),
                decreases mats@.len() - m,
            {
                let mat = &mats[m];
                let ghost km = choose|k: nat|
                    self.fri.log_blowup + self.fri.log_final_poly_len < k <= 27
                        && #[trigger] pow2(k) == data@[rd4 as int].mats@[m as int].h();
                proof {
                    crate::mmcs::lemma_log2_of(km);
                    crate::mmcs::lemma_batch_max_h_ge(data@[rd4 as int].mats@, m as int);
                    lemma_global_max_ge(data@, rd4 as int);
                    assert(data@[rd4 as int].mats@[m as int].h() <= global_max_h(data@));
                    if km > kglob {
                        lemma_pow2_strictly_increases(kglob, km);
                        assert(false);
                    }
                    assert(km <= kglob);
                }
                let h = mat.height();
                let log_h = log2_strict(h, Ghost(km));
                let nat_low = low_coset_natural(mat, self.fri.log_blowup, Ghost(km));
                let lh = log_h;
                // Make sure this height's accumulator exists.
                if reduced[lh].len() == 0 {
                    let mut zero_bucket: Vec<Ext> = Vec::new();
                    let mut zi: usize = 0;
                    while zi < h
                        invariant
                            zi <= h,
                            zero_bucket@.len() == zi,
                            crate::mmcs::wf_ext_seq(zero_bucket@),
                        decreases h - zi,
                    {
                        zero_bucket.push(Ext::zero());
                        zi = zi + 1;
                    }
                    reduced.set(lh, zero_bucket);
                }
                let pm3 = &points[rd4][m];
                let mut mat_vals: Vec<Vec<Ext>> = Vec::new();
                let mut p: usize = 0;
                while p < pm3.len()
                    invariant
                        self.fri.wf(),
                        wf_pcs_rounds(data@, points@, self.fri),
                        nrounds == data@.len(),
                        rd4 < nrounds,
                        mats == &data@[rd4 as int].mats,
                        m < mats@.len(),
                        mat == &data@[rd4 as int].mats@[m as int],
                        pm3 == &points@[rd4 as int]@[m as int],
                        stop_bits == self.fri.log_blowup + self.fri.log_final_poly_len,
                        stop_bits < kglob <= 27,
                        stop_bits < km <= kglob,
                        pow2(km) == mat.h(),
                        h == mat.h(),
                        lh == km,
                        nmax == pow2(kglob),
                        log_global == kglob,
                        reducer.wf(),
                        reducer.alpha == alpha,
                        reducer.powers@.len() == max_width,
                        mat.width <= max_width,
                        nat_low.wf(),
                        nat_low.width == mat.width,
                        nat_low.h() == pow2((km - self.fri.log_blowup) as nat),
                        crate::interpolation::rows_of(nat_low) == low_rows(
                            data@[rd4 as int].mats@[m as int],
                            (km - self.fri.log_blowup) as nat,
                        ),
                        forall|e: int|
                            0 <= e < inv_denoms@.len() ==> (#[trigger] inv_denoms@[e]).invs@.len()
                                == pow2(kglob),
                        forall|e: int, t: int|
                            0 <= e < inv_denoms@.len() && 0 <= t < pow2(kglob)
                                ==> (#[trigger] inv_denoms@[e].invs@[t]).wf(),
                        reduced@.len() == 28,
                        num_reduced@.len() == 28,
                        forall|t: int|
                            0 <= t < 28 ==> (#[trigger] reduced@[t])@.len() == 0 || (stop_bits < t
                                <= kglob && reduced@[t]@.len() == pow2(t as nat)
                                && crate::mmcs::wf_ext_seq(reduced@[t]@)),
                        reduced@[lh as int]@.len() == pow2(km),
                        challenger.wf(),
                        challenger.st@ == squeeze4_state(s0),
                        p <= pm3@.len(),
                        mat_vals@.len() == p,
                        forall|p2: int|
                            0 <= p2 < p ==> (#[trigger] mat_vals@[p2])@.len() == data@[
                                rd4 as int].mats@[m as int].width,
                        forall|p2: int, c2: int|
                            0 <= p2 < p && 0 <= c2 < data@[rd4 as int].mats@[m as int].width
                                ==> (#[trigger] mat_vals@[p2]@[c2])@
                                == crate::interpolation::interp_eval(
                                low_rows(
                                    data@[rd4 as int].mats@[m as int],
                                    (log2_of(data@[rd4 as int].mats@[m as int].h() as nat)
                                        - self.fri.log_blowup) as nat,
                                ),
                                c2,
                                GENERATOR as int,
                                points@[rd4 as int]@[m as int]@[p2]@,
                            ),
                    decreases pm3@.len() - p,
                {
                    let z = pm3[p];
                    proof {
                        lemma_pow2_pos((km - self.fri.log_blowup) as nat);
                        assert(exists|k2: nat|
                            k2 <= 27 && #[trigger] pow2(k2) == nat_low.h()) by {
                            assert((km - self.fri.log_blowup) as nat <= 27 && pow2(
                                (km - self.fri.log_blowup) as nat,
                            ) == nat_low.h());
                        };
                    }
                    let shift = Fp::new(GENERATOR);
                    let ys = crate::interpolation::interpolate_coset(&nat_low, shift, z);
                    proof {
                        crate::mmcs::lemma_log2_of(km);
                        assert(log2_of(data@[rd4 as int].mats@[m as int].h() as nat) == km);
                    }
                    // The inverse denominators for this point.
                    let mut invs_idx: usize = 0;
                    let mut found = false;
                    let mut found_at: usize = 0;
                    while invs_idx < inv_denoms.len()
                        invariant
                            invs_idx <= inv_denoms@.len(),
                            found ==> found_at < inv_denoms@.len() && inv_denoms@[
                                found_at as int].z == z,
                        decreases inv_denoms@.len() - invs_idx,
                    {
                        if inv_denoms[invs_idx].z == z {
                            found = true;
                            found_at = invs_idx;
                        }
                        invs_idx = invs_idx + 1;
                    }
                    let alpha_offset = alpha.exp_u64(num_reduced[lh]);
                    let sum_y = reducer.reduce_ext(&ys);
                    let gg = Fp::two_adic_generator(log_global);
                    let mut newb: Vec<Ext> = Vec::new();
                    let mut x: usize = 0;
                    while x < h
                        invariant
                            self.fri.wf(),
                            wf_pcs_rounds(data@, points@, self.fri),
                            rd4 < nrounds,
                            nrounds == data@.len(),
                            mats == &data@[rd4 as int].mats,
                            m < mats@.len(),
                            mat == &data@[rd4 as int].mats@[m as int],
                            h == mat.h(),
                            pow2(km) == mat.h(),
                            stop_bits < km <= kglob,
                            kglob <= 27,
                            log_global == kglob,
                            reducer.wf(),
                            reducer.powers@.len() == max_width,
                            mat.width <= max_width,
                            z.wf(),
                            gg.wf(),
                            alpha_offset.wf(),
                            sum_y.wf(),
                            found ==> found_at < inv_denoms@.len() && inv_denoms@[
                                found_at as int].z == z,
                            forall|e: int|
                                0 <= e < inv_denoms@.len()
                                    ==> (#[trigger] inv_denoms@[e]).invs@.len() == pow2(kglob),
                            forall|e: int, t: int|
                                0 <= e < inv_denoms@.len() && 0 <= t < pow2(kglob)
                                    ==> (#[trigger] inv_denoms@[e].invs@[t]).wf(),
                            reduced@.len() == 28,
                            reduced@[lh as int]@.len() == pow2(km),
                            crate::mmcs::wf_ext_seq(reduced@[lh as int]@),
                            challenger.wf(),
                            challenger.st@ == squeeze4_state(s0),
                            lh == km,
                            x <= h,
                            newb@.len() == x,
                            crate::mmcs::wf_ext_seq(newb@),
                        decreases h - x,
                    {
                        proof {
                            if km < kglob {
                                lemma_pow2_strictly_increases(km, kglob);
                            }
                            crate::bits::lemma_rev_bits_bound(x as nat, kglob);
                        }
                        let inv_x = if found {
                            inv_denoms[found_at].invs[x]
                        } else {
                            let xr = reverse_bits_len(x, log_global);
                            let pt = Fp::new(GENERATOR).mul(gg.pow_u64(xr as u64));
                            crate::ext::ext_inv(Ext::from_base(pt).sub(z))
                        };
                        let row = mat.row(x);
                        let row_sum = reducer.reduce_base(&row);
                        let t = inv_x.mul(alpha_offset).mul(row_sum.sub(sum_y));
                        let cur = reduced[lh][x];
                        newb.push(cur.add(t));
                        x = x + 1;
                    }
                    reduced.set(lh, newb);
                    let nr = num_reduced[lh];
                    let w64 = mat.width as u64;
                    if nr > u64::MAX - w64 {
                        return Err(ProverError::TooManyOpenings);
                    }
                    num_reduced.set(lh, nr + w64);
                    mat_vals.push(ys);
                    p = p + 1;
                }
                round_vals.push(mat_vals);
                m = m + 1;
                proof {
                    assert(stop_bits < lh as int <= kglob && reduced@[lh as int]@.len() == pow2(
                        lh as nat,
                    ));
                }
            }
            all_vals.push(round_vals);
            rd4 = rd4 + 1;
        }

        // Collect the reduced codewords, tallest first.
        let mut fri_inputs: Vec<Vec<Ext>> = Vec::new();
        let ghost mut ks: Seq<nat> = Seq::empty();
        let ghost tw = choose|t: int|
            stop_bits < t <= kglob && (#[trigger] reduced@[t])@.len() == pow2(t as nat);
        proof {
            lemma_pow2_pos(tw as nat);
        }
        let mut step: usize = 0;
        while step < 28
            invariant
                self.fri.wf(),
                challenger.wf(),
                challenger.st@ == squeeze4_state(s0),
                stop_bits == self.fri.log_blowup + self.fri.log_final_poly_len,
                stop_bits < kglob <= 27,
                reduced@.len() == 28,
                forall|t: int|
                    0 <= t < 28 ==> (#[trigger] reduced@[t])@.len() == 0 || (stop_bits < t
                        <= kglob && reduced@[t]@.len() == pow2(t as nat)
                        && crate::mmcs::wf_ext_seq(reduced@[t]@)),
                exists|t: int|
                    stop_bits < t <= kglob && (#[trigger] reduced@[t])@.len() == pow2(t as nat),
                step <= 28,
                fri_inputs@.len() == ks.len(),
                forall|t: int|
                    0 <= t < ks.len() ==> (#[trigger] ks[t]) > 27 - step && ks[t] <= 27,
                forall|t: int|
                    0 <= t < ks.len() ==> stop_bits < (#[trigger] ks[t]) && ks[t] <= kglob,
                forall|t: int|
                    0 <= t && t + 1 < ks.len() ==> #[trigger] ks[t + 1] < ks[t],
                forall|t: int|
                    0 <= t < fri_inputs@.len() ==> (#[trigger] fri_inputs@[t])@.len() == pow2(
                        ks[t],
                    ),
                forall|t: int|
                    0 <= t < fri_inputs@.len() ==> crate::mmcs::wf_ext_seq(
                        (#[trigger] fri_inputs@[t])@,
                    ),
                stop_bits < tw <= kglob,
                reduced@[tw]@.len() == pow2(tw as nat),
                step > 27 - tw ==> fri_inputs@.len() >= 1,
            decreases 28 - step,
        {
            let lh = 27 - step;
            if reduced[lh].len() > 0 {
                let bucket = crate::mmcs::copy_ext_vec(&reduced[lh]);
                fri_inputs.push(bucket);
                proof {
                    let old_ks = ks;
                    assert(forall|t: int|
                        0 <= t < old_ks.len() ==> (#[trigger] old_ks[t]) > 27 - step);
                    assert(forall|t: int|
                        0 <= t && t + 1 < old_ks.len() ==> #[trigger] old_ks[t + 1] < old_ks[t]);
                    ks = ks.push(lh as nat);
                    assert(ks.len() == old_ks.len() + 1);
                    assert(forall|t: int| 0 <= t < old_ks.len() ==> #[trigger] ks[t] == old_ks[t]);
                    assert(ks[ks.len() - 1] == lh as nat);
                    assert forall|t: int| 0 <= t && t + 1 < ks.len() implies #[trigger] ks[t + 1]
                        < ks[t] by {
                        assert(ks[t] == old_ks[t]);
                        if t + 1 < ks.len() - 1 {
                            assert(ks[t + 1] == old_ks[t + 1]);
                            assert(old_ks[t + 1] < old_ks[t]);
                        } else {
                            assert(ks[t + 1] == lh as nat);
                            assert(old_ks[t] > 27 - step);
                        }
                    }
                }
            } else {
                proof {
                    lemma_pow2_pos(tw as nat);
                    assert(lh != tw);
                }
            }
            step = step + 1;
        }
        proof {
            assert(fri_inputs@.len() >= 1);
            assert(ks[ks.len() - 1] > stop_bits);
            assert(crate::prover::wf_inputs(fri_inputs@, ks, self.fri));
        }
        let pr = match crate::prover::prove(&self.fri, &fri_inputs, challenger, Ghost(ks)) {
            Ok(pr) => pr,
            Err(e) => {
                proof {
                    assert(crate::prover::wf_inputs(fri_inputs@, ks, self.fri)
                        && crate::prover::has_high_coeff(
                        crate::prover::cp_coeffs(
                            crate::prover::input_views(fri_inputs@),
                            ks,
                            squeeze4_state(s0),
                            self.fri,
                        ),
                        pow2(self.fri.log_final_poly_len as nat) as int,
                    ));
                }
                return Err(e);
            },
        };
        let fri_proof = pr.0;
        let query_indices = pr.1;
        proof {
            assert forall|t: int| 0 <= t < query_indices@.len() implies (
            #[trigger] query_indices@[t]) < pow2(kglob) by {
                assert(query_indices@[t] < pow2(ks[0]));
                if ks[0] < kglob {
                    lemma_pow2_strictly_increases(ks[0], kglob);
                }
            }
        }

        // Open every committed batch at every sampled index.
        let mut query_openings: Vec<Vec<BatchOpening>> = Vec::new();
        let mut q: usize = 0;
        while q < query_indices.len()
            invariant
                self.fri.wf(),
                wf_pcs_rounds(data@, points@, self.fri),
                nrounds == data@.len(),
                stop_bits < kglob <= 27,
                nmax == pow2(kglob),
                log_global == kglob,
                kglob == log2_of(global_max_h(data@) as nat),
                nmax == global_max_h(data@),
                query_indices@.len() == self.fri.num_queries,
                forall|t: int|
                    0 <= t < query_indices@.len() ==> (#[trigger] query_indices@[t]) < pow2(kglob),
                q <= query_indices@.len(),
                query_openings@.len() == q,
                forall|q2: int|
                    0 <= q2 < q ==> (#[trigger] query_openings@[q2])@.len() == nrounds,
                forall|q2: int, r2: int|
                    0 <= q2 < q && 0 <= r2 < nrounds ==> batch_opening_ok(
                        #[trigger] query_openings@[q2]@[r2],
                        data@[r2].mats@,
                        reduced_idx_s(query_indices@[q2] as int, kglob, data@[r2].mats@),
                    ),
            decreases query_indices@.len() - q,
        {
            let idx = query_indices[q];
            let mut per_round: Vec<BatchOpening> = Vec::new();
            let mut r5: usize = 0;
            while r5 < nrounds
                invariant
                    self.fri.wf(),
                    wf_pcs_rounds(data@, points@, self.fri),
                    nrounds == data@.len(),
                    stop_bits < kglob <= 27,
                    nmax == pow2(kglob),
                    nmax == global_max_h(data@),
                    log_global == kglob,
                    idx < pow2(kglob),
                    idx == query_indices@[q as int],
                    q < query_indices@.len(),
                    r5 <= nrounds,
                    per_round@.len() == r5,
                    forall|r2: int|
                        0 <= r2 < r5 ==> batch_opening_ok(
                            #[trigger] per_round@[r2],
                            data@[r2].mats@,
                            reduced_idx_s(idx as int, kglob, data@[r2].mats@),
                        ),
                decreases nrounds - r5,
            {
                let bmh = crate::mmcs::batch_max_height(&data[r5].mats);
                proof {
                    crate::mmcs::lemma_batch_max_h_witness(data@[r5 as int].mats@);
                }
                let ghost kb = choose|k: nat|
                    k < 30 && #[trigger] pow2(k) == crate::mmcs::batch_max_h(
                        data@[r5 as int].mats@,
                    );
                proof {
                    let mw = choose|m2: int|
                        0 <= m2 < data@[r5 as int].mats@.len() && crate::mmcs::batch_max_h(
                            data@[r5 as int].mats@,
                        ) == (#[trigger] data@[r5 as int].mats@[m2]).h();
                    let kw = choose|k: nat|
                        k < 30 && #[trigger] pow2(k) == data@[r5 as int].mats@[mw].h();
                    assert(pow2(kw) == crate::mmcs::batch_max_h(data@[r5 as int].mats@));
                    lemma_global_max_ge(data@, r5 as int);
                    if kb > kglob {
                        lemma_pow2_strictly_increases(kglob, kb);
                    }
                    crate::mmcs::lemma_log2_of(kb);
                    lemma_pow2_adds((kglob - kb) as nat, kb);
                    lemma_pow2_pos((kglob - kb) as nat);
                    assert((idx as int) < (pow2((kglob - kb) as nat) as int) * (pow2(kb) as int));
                    vstd::arithmetic::div_mod::lemma_multiply_divide_lt(
                        idx as int,
                        pow2((kglob - kb) as nat) as int,
                        pow2(kb) as int,
                    );
                }
                let log_b = log2_strict(bmh, Ghost(kb));
                let denom = pow2_usize(log_global - log_b);
                let ridx = idx / denom;
                let (rows, pf) = batch_open(&data[r5], ridx);
                let bo = BatchOpening { opened_values: rows, opening_proof: pf };
                proof {
                    assert(batch_opening_ok(
                        bo,
                        data@[r5 as int].mats@,
                        reduced_idx_s(idx as int, kglob, data@[r5 as int].mats@),
                    ));
                }
                per_round.push(bo);
                r5 = r5 + 1;
            }
            query_openings.push(per_round);
            q = q + 1;
        }
        Ok(
            (
                all_vals,
                TwoAdicFriPcsProof { fri_proof, query_openings },
                query_indices,
            ),
        )
    }
}


/// The caller's statically known shapes for a batched verification: the
/// claimed dimensions are the committed ones, every commitment is a
/// well-formed batch within the protocol's height range, and the claimed
/// values match the points, matrix by matrix.
pub open spec fn wf_pcs_claims(
    commits: Seq<BatchCommitment>,
    points: Seq<Vec<Vec<Ext>>>,
    dims: Seq<Vec<Dims>>,
    values: Seq<Vec<Vec<Vec<Ext>>>>,
    fri: FriConfig,
) -> bool {
    &&& commits.len() >= 1
    &&& points.len() == commits.len()
    &&& dims.len() == commits.len()
    &&& forall|r: int| 0 <= r < commits.len() ==> wf_batch((#[trigger] commits[r]).mats@)
    &&& forall|r: int|
        0 <= r < commits.len() ==> (#[trigger] points[r])@.len() == commits[r].mats@.len()
    &&& forall|r: int|
        0 <= r < commits.len() ==> (#[trigger] dims[r])@.len() == commits[r].mats@.len()
    &&& forall|r: int, m: int|
        0 <= r < commits.len() && 0 <= m < commits[r].mats@.len() ==> (#[trigger] dims[r]@[
            m]).width == commits[r].mats@[m].width && dims[r]@[m].height == commits[r].mats@[
            m].h()
    &&& forall|r: int, m: int|
        0 <= r < commits.len() && 0 <= m < commits[r].mats@.len() ==> pcs_height_ok(
            #[trigger] commits[r].mats@[m],
            fri,
        )
    &&& forall|r: int, m: int, p: int|
        0 <= r < commits.len() && 0 <= m < commits[r].mats@.len() && 0 <= p < points[r]@[
            m]@.len() ==> (#[trigger] points[r]@[m]@[p]).wf()
    &&& forall|r: int, m: int, p: int, c: int|
        0 <= r < values.len() && 0 <= m < values[r]@.len() && 0 <= p < values[r]@[m]@.len()
            && 0 <= c < values[r]@[m]@[p]@.len() ==> (#[trigger] values[r]@[m]@[p]@[c]).wf()
}

/// The views of a base-field row.
pub open spec fn fp_views(s: Seq<Fp>) -> Seq<int> {
    s.map_values(|x: Fp| x@)
}

/// The views of a batch's opened rows.
pub open spec fn rows_views(ov: Seq<Vec<Fp>>) -> Seq<Seq<int>> {
    Seq::new(ov.len(), |m: int| fp_views(ov[m]@))
}

/// 28 zero accumulators, one per height exponent.
pub open spec fn zeros28() -> Seq<Seq<int>> {
    Seq::new(28, |i: int| ezero())
}

/// 28 unit challenge powers, one per height exponent.
pub open spec fn ones28() -> Seq<Seq<int>> {
    Seq::new(28, |i: int| crate::ext::eone())
}

/// The committed-coset point that a query index selects for a matrix of
/// height exponent `lh` under a proof of height exponent `kglob`.
pub open spec fn query_x(idx: int, kglob: nat, lh: nat) -> int {
    fmul(
        GENERATOR as int,
        fpow(
            two_adic_gen(lh),
            rev_bits((idx / (pow2((kglob - lh) as nat) as int)) as nat, lh),
        ),
    )
}

/// One opened column folded into the accumulators: the quotient
/// `(p(x) - p(z)) / (x - z)` weighted by the running power of the
/// batching challenge at the matrix's height, which then advances.
#[verifier::opaque]
pub open spec fn acc_one(
    st: (Seq<Seq<int>>, Seq<Seq<int>>),
    lh: int,
    x: int,
    z: Seq<int>,
    px: int,
    pz: Seq<int>,
    alpha: Seq<int>,
) -> (Seq<Seq<int>>, Seq<Seq<int>>) {
    let q = emul(esub(efrom(px), pz), crate::interpolation::einv0(esub(efrom(x), z)));
    (
        st.0.update(lh, eadd(st.0[lh], emul(st.1[lh], q))),
        st.1.update(lh, emul(st.1[lh], alpha)),
    )
}

/// The first `n` columns of one opened row at one point folded in.
#[verifier::opaque]
pub open spec fn acc_cols(
    st: (Seq<Seq<int>>, Seq<Seq<int>>),
    lh: int,
    x: int,
    z: Seq<int>,
    row: Seq<int>,
    ys: Seq<Seq<int>>,
    alpha: Seq<int>,
    n: nat,
) -> (Seq<Seq<int>>, Seq<Seq<int>>)
    decreases n,
{
    if n == 0 {
        st
    } else {
        acc_one(
            acc_cols(st, lh, x, z, row, ys, alpha, (n - 1) as nat),
            lh,
            x,
            z,
            row[n - 1],
            ys[n - 1],
            alpha,
        )
    }
}

/// The first `p` opening points of one matrix folded in.
#[verifier::opaque]
pub open spec fn acc_points(
    st: (Seq<Seq<int>>, Seq<Seq<int>>),
    lh: int,
    x: int,
    row: Seq<int>,
    zs: Seq<Ext>,
    ys: Seq<Vec<Ext>>,
    alpha: Seq<int>,
    width: nat,
    p: nat,
) -> (Seq<Seq<int>>, Seq<Seq<int>>)
    decreases p,
{
    if p == 0 {
        st
    } else {
        acc_cols(
            acc_points(st, lh, x, row, zs, ys, alpha, width, (p - 1) as nat),
            lh,
            x,
            zs[p - 1]@,
            row,
            views_of(ys[p - 1]@),
            alpha,
            width,
        )
    }
}

/// The first `m` matrices of one committed batch folded in.
#[verifier::opaque]
pub open spec fn acc_mats(
    st: (Seq<Seq<int>>, Seq<Seq<int>>),
    mats: Seq<FpMat>,
    pts: Seq<Vec<Ext>>,
    vals: Seq<Vec<Vec<Ext>>>,
    rows: Seq<Seq<int>>,
    idx: int,
    kglob: nat,
    alpha: Seq<int>,
    m: nat,
) -> (Seq<Seq<int>>, Seq<Seq<int>>)
    decreases m,
{
    if m == 0 {
        st
    } else {
        let lh = log2_of(mats[m - 1].h() as nat);
        acc_points(
            acc_mats(st, mats, pts, vals, rows, idx, kglob, alpha, (m - 1) as nat),
            lh as int,
            query_x(idx, kglob, lh),
            rows[m - 1],
            pts[m - 1]@,
            vals[m - 1]@,
            alpha,
            mats[m - 1].width as nat,
            pts[m - 1]@.len() as nat,
        )
    }
}

/// The first `r` committed batches folded in.
#[verifier::opaque]
pub open spec fn acc_rounds(
    st: (Seq<Seq<int>>, Seq<Seq<int>>),
    commits: Seq<BatchCommitment>,
    points: Seq<Vec<Vec<Ext>>>,
    values: Seq<Vec<Vec<Vec<Ext>>>>,
    openings: Seq<BatchOpening>,
    idx: int,
    kglob: nat,
    alpha: Seq<int>,
    r: nat,
) -> (Seq<Seq<int>>, Seq<Seq<int>>)
    decreases r,
{
    if r == 0 {
        st
    } else {
        acc_mats(
            acc_rounds(st, commits, points, values, openings, idx, kglob, alpha, (r - 1) as nat),
            commits[r - 1].mats@,
            points[r - 1]@,
            values[r - 1]@,
            rows_views(openings[r - 1].opened_values@),
            idx,
            kglob,
            alpha,
            commits[r - 1].mats@.len() as nat,
        )
    }
}

/// The reduced openings a verifier recomputes for one query: every
/// claimed (matrix, point, column) quotient, weighted by consecutive
/// powers of the batching challenge, summed into the slot of its height.
pub open spec fn recomputed_ro(
    commits: Seq<BatchCommitment>,
    points: Seq<Vec<Vec<Ext>>>,
    values: Seq<Vec<Vec<Vec<Ext>>>>,
    openings: Seq<BatchOpening>,
    idx: int,
    kglob: nat,
    alpha: Seq<int>,
) -> Seq<Seq<int>> {
    acc_rounds(
        (zeros28(), ones28()),
        commits,
        points,
        values,
        openings,
        idx,
        kglob,
        alpha,
        commits.len() as nat,
    ).0
}

/// The claimed values have one list per matrix, one entry per opening
/// point, one value per column.
pub open spec fn values_shape_ok(
    commits: Seq<BatchCommitment>,
    points: Seq<Vec<Vec<Ext>>>,
    values: Seq<Vec<Vec<Vec<Ext>>>>,
) -> bool {
    &&& values.len() == commits.len()
    &&& forall|r: int|
        0 <= r < commits.len() ==> (#[trigger] values[r])@.len() == commits[r].mats@.len()
    &&& forall|r: int, m: int|
        0 <= r < commits.len() && 0 <= m < commits[r].mats@.len()
            ==> (#[trigger] values[r]@[m])@.len() == points[r]@[m]@.len()
    &&& forall|r: int, m: int, p: int|
        0 <= r < commits.len() && 0 <= m < commits[r].mats@.len() && 0 <= p < points[r]@[
            m]@.len() ==> (#[trigger] values[r]@[m]@[p])@.len() == commits[r].mats@[m].width
}

/// Every base-field value carried by a batched-opening proof is in
/// canonical form; deserialization establishes this.
pub open spec fn wf_pcs_proof(pr: TwoAdicFriPcsProof) -> bool {
    &&& crate::fri_verifier::wf_fri_proof(pr.fri_proof)
    &&& forall|q: int, r: int, m: int, c: int|
        0 <= q < pr.query_openings@.len() && 0 <= r < pr.query_openings@[q]@.len() && 0 <= m
            < pr.query_openings@[q]@[r].opened_values@.len() && 0 <= c < pr.query_openings@[q]@[
            r].opened_values@[m]@.len() ==> (#[trigger] pr.query_openings@[q]@[r].opened_values@[
            m]@[c]).wf()
}

/// The height exponent a proof claims: one fold round per commitment,
/// on top of the final codeword's size.
pub open spec fn pcs_kglob(fri: FriConfig, proof: TwoAdicFriPcsProof) -> nat {
    (proof.fri_proof.commit_phase_commits@.len() + fri.log_blowup + fri.log_final_poly_len) as nat
}

/// The transcript state from which the query indices are drawn: the
/// batching challenge, the FRI replay, and the proof-of-work check have
/// all been absorbed.
pub open spec fn pcs_s2v(fri: FriConfig, proof: TwoAdicFriPcsProof, s0: int) -> int {
    squeeze(
        absorb(
            crate::fri_verifier::replay_pre_pow_state(proof.fri_proof, squeeze4_state(s0)),
            proof.fri_proof.pow_witness@,
        ),
    )
}

/// The `q`-th query index the transcript yields.
pub open spec fn pcs_idx(fri: FriConfig, proof: TwoAdicFriPcsProof, s0: int, q: int) -> int {
    squeeze_n(pcs_s2v(fri, proof, s0), (q + 1) as nat) % (pow2(pcs_kglob(fri, proof)) as int)
}

/// The folding challenges the transcript yields, one per fold round.
pub open spec fn pcs_betas(proof: TwoAdicFriPcsProof, s0: int) -> Seq<Seq<int>> {
    let words = crate::fri_verifier::commit_views(proof.fri_proof.commit_phase_commits@);
    Seq::new(
        proof.fri_proof.commit_phase_commits@.len(),
        |i: int|
            squeeze4(
                absorb_ext_seq(
                    crate::fri_verifier::obs_rounds_state(words, squeeze4_state(s0), i as nat),
                    words[i],
                ),
            ),
    )
}

/// The proof carries one batch opening per query and per commitment.
pub open spec fn openings_shape_ok(
    fri: FriConfig,
    commits: Seq<BatchCommitment>,
    proof: TwoAdicFriPcsProof,
) -> bool {
    &&& proof.query_openings@.len() == fri.num_queries
    &&& forall|q: int|
        0 <= q < fri.num_queries ==> (#[trigger] proof.query_openings@[q])@.len() == commits.len()
}

/// Every committed batch fits under the proof's claimed height.
pub open spec fn heights_fit(
    fri: FriConfig,
    commits: Seq<BatchCommitment>,
    proof: TwoAdicFriPcsProof,
) -> bool {
    forall|rd: int|
        0 <= rd < commits.len() ==> crate::mmcs::batch_max_h((#[trigger] commits[rd]).mats@)
            <= pow2(pcs_kglob(fri, proof)) as int
}

/// Every opened batch row is exactly the committed row under the
/// transcript's height-scaled query index.
pub open spec fn pcs_batches_ok(
    fri: FriConfig,
    commits: Seq<BatchCommitment>,
    dims: Seq<Vec<Dims>>,
    proof: TwoAdicFriPcsProof,
    s0: int,
) -> bool {
    forall|q: int, rd: int|
        0 <= q < fri.num_queries && 0 <= rd < commits.len() ==> crate::mmcs::batch_ok(
            commits[rd].mats@,
            dims[rd]@,
            reduced_idx_s(pcs_idx(fri, proof, s0, q), pcs_kglob(fri, proof), commits[rd].mats@),
            (#[trigger] proof.query_openings@[q]@[rd]).opened_values@.map_values(
                |v: Vec<Fp>| v@,
            ),
        )
}

/// The FRI verifier accepts every query against the reduced openings
/// recomputed from the claimed values.
pub open spec fn pcs_fri_ok(
    fri: FriConfig,
    commits: Seq<BatchCommitment>,
    points: Seq<Vec<Vec<Ext>>>,
    values: Seq<Vec<Vec<Vec<Ext>>>>,
    proof: TwoAdicFriPcsProof,
    s0: int,
) -> bool {
    forall|q: int|
        0 <= q < fri.num_queries ==> #[trigger] crate::fri_verifier::query_accepted(
            fri,
            proof.fri_proof.commit_phase_commits@,
            proof.fri_proof.final_poly@,
            pcs_betas(proof, s0),
            proof.fri_proof.query_proofs@[q].commit_phase_openings@,
            pcs_idx(fri, proof, s0, q),
            recomputed_ro(
                commits,
                points,
                values,
                proof.query_openings@[q]@,
                pcs_idx(fri, proof, s0, q),
                pcs_kglob(fri, proof),
                squeeze4(s0),
            ),
        )
}

/// A batched opening is accepted: the FRI proof has the right shape and
/// a passing proof-of-work witness, the claimed values have one entry
/// per matrix, point and column, every committed batch fits under the
/// proof's height, every opened batch row is exactly the committed row
/// under the transcript's query index, and the FRI verifier accepts the
/// recomputed reduced openings under the transcript's challenges.
#[verifier::opaque]
pub open spec fn pcs_accepts(
    fri: FriConfig,
    commits: Seq<BatchCommitment>,
    points: Seq<Vec<Vec<Ext>>>,
    dims: Seq<Vec<Dims>>,
    values: Seq<Vec<Vec<Vec<Ext>>>>,
    proof: TwoAdicFriPcsProof,
    s0: int,
) -> bool {
    &&& crate::fri_verifier::proof_shape_ok(fri, proof.fri_proof)
    &&& crate::fri_verifier::pow_ok(fri, proof.fri_proof, squeeze4_state(s0))
    &&& values_shape_ok(commits, points, values)
    &&& openings_shape_ok(fri, commits, proof)
    &&& heights_fit(fri, commits, proof)
    &&& pcs_batches_ok(fri, commits, dims, proof, s0)
    &&& pcs_fri_ok(fri, commits, points, values, proof, s0)
}

/// Acceptance requires every opened batch row to pass its check.
proof fn lemma_accepts_needs_batch(
    fri: FriConfig,
    commits: Seq<BatchCommitment>,
    points: Seq<Vec<Vec<Ext>>>,
    dims: Seq<Vec<Dims>>,
    values: Seq<Vec<Vec<Vec<Ext>>>>,
    proof: TwoAdicFriPcsProof,
    s0: int,
    q: int,
    rd: int,
)
    requires
        0 <= q < fri.num_queries,
        0 <= rd < commits.len(),
        !crate::mmcs::batch_ok(
            commits[rd].mats@,
            dims[rd]@,
            reduced_idx_s(pcs_idx(fri, proof, s0, q), pcs_kglob(fri, proof), commits[rd].mats@),
            proof.query_openings@[q]@[rd].opened_values@.map_values(|v: Vec<Fp>| v@),
        ),
    ensures
        !pcs_accepts(fri, commits, points, dims, values, proof, s0),
{
    reveal(pcs_accepts);
    if pcs_accepts(fri, commits, points, dims, values, proof, s0) {
        assert(crate::mmcs::batch_ok(
            commits[rd].mats@,
            dims[rd]@,
            reduced_idx_s(pcs_idx(fri, proof, s0, q), pcs_kglob(fri, proof), commits[rd].mats@),
            (#[trigger] proof.query_openings@[q]@[rd]).opened_values@.map_values(
                |v: Vec<Fp>| v@,
            ),
        ));
    }
}

/// Every check passing is exactly acceptance.
proof fn lemma_accepts_from_checks(
    fri: FriConfig,
    commits: Seq<BatchCommitment>,
    points: Seq<Vec<Vec<Ext>>>,
    dims: Seq<Vec<Dims>>,
    values: Seq<Vec<Vec<Vec<Ext>>>>,
    proof: TwoAdicFriPcsProof,
    s0: int,
)
    requires
        crate::fri_verifier::proof_shape_ok(fri, proof.fri_proof),
        crate::fri_verifier::pow_ok(fri, proof.fri_proof, squeeze4_state(s0)),
        values_shape_ok(commits, points, values),
        openings_shape_ok(fri, commits, proof),
        heights_fit(fri, commits, proof),
        pcs_batches_ok(fri, commits, dims, proof, s0),
        pcs_fri_ok(fri, commits, points, values, proof, s0),
    ensures
        pcs_accepts(fri, commits, points, dims, values, proof, s0),
{
    reveal(pcs_accepts);
}

/// A FRI rejection of the recomputed openings refutes acceptance.
proof fn lemma_rejects_from_fri(
    fri: FriConfig,
    commits: Seq<BatchCommitment>,
    points: Seq<Vec<Vec<Ext>>>,
    dims: Seq<Vec<Dims>>,
    values: Seq<Vec<Vec<Vec<Ext>>>>,
    proof: TwoAdicFriPcsProof,
    s0: int,
)
    requires
        !pcs_fri_ok(fri, commits, points, values, proof, s0),
    ensures
        !pcs_accepts(fri, commits, points, dims, values, proof, s0),
{
    reveal(pcs_accepts);
}

/// Acceptance requires every committed batch to fit under the proof's
/// height.
proof fn lemma_accepts_needs_heights(
    fri: FriConfig,
    commits: Seq<BatchCommitment>,
    points: Seq<Vec<Vec<Ext>>>,
    dims: Seq<Vec<Dims>>,
    values: Seq<Vec<Vec<Vec<Ext>>>>,
    proof: TwoAdicFriPcsProof,
    s0: int,
    rd: int,
)
    requires
        0 <= rd < commits.len(),
        crate::mmcs::batch_max_h(commits[rd].mats@) > pow2(pcs_kglob(fri, proof)) as int,
    ensures
        !pcs_accepts(fri, commits, points, dims, values, proof, s0),
{
    reveal(pcs_accepts);
    if pcs_accepts(fri, commits, points, dims, values, proof, s0) {
        assert(crate::mmcs::batch_max_h((#[trigger] commits[rd]).mats@) <= pow2(
            pcs_kglob(fri, proof),
        ) as int);
    }
}

/// Checks one batch's opened row for one query and folds its quotients
/// into the running reduced openings. Rejects, without touching the
/// accumulators, a batch taller than the proof's height or an opened row
/// the commitment refuses.
#[verifier::rlimit(100)]
fn accumulate_batch(
    fri: &FriConfig,
    commit: &BatchCommitment,
    dims_r: &Vec<Dims>,
    pts_r: &Vec<Vec<Ext>>,
    vals_r: &Vec<Vec<Vec<Ext>>>,
    bo: &BatchOpening,
    idx: usize,
    log_global: usize,
    alpha: Ext,
    ro: &mut Vec<Ext>,
    apows: &mut Vec<Ext>,
) -> (r: Result<(), VerificationError>)
    requires
        fri.wf(),
        wf_batch(commit.mats@),
        forall|m: int|
            0 <= m < commit.mats@.len() ==> pcs_height_ok(#[trigger] commit.mats@[m], *fri),
        dims_r@.len() == commit.mats@.len(),
        forall|m: int|
            0 <= m < commit.mats@.len() ==> (#[trigger] dims_r@[m]).width == commit.mats@[
                m].width && dims_r@[m].height == commit.mats@[m].h(),
        pts_r@.len() == commit.mats@.len(),
        forall|m: int, p: int|
            0 <= m < commit.mats@.len() && 0 <= p < pts_r@[m]@.len() ==> (#[trigger] pts_r@[m]@[
                p]).wf(),
        vals_r@.len() == commit.mats@.len(),
        forall|m: int|
            0 <= m < commit.mats@.len() ==> (#[trigger] vals_r@[m])@.len() == pts_r@[m]@.len(),
        forall|m: int, p: int|
            0 <= m < commit.mats@.len() && 0 <= p < pts_r@[m]@.len() ==> (#[trigger] vals_r@[m]@[
                p])@.len() == commit.mats@[m].width,
        forall|m: int, p: int, c: int|
            0 <= m < commit.mats@.len() && 0 <= p < pts_r@[m]@.len() && 0 <= c < vals_r@[m]@[
                p]@.len() ==> (#[trigger] vals_r@[m]@[p]@[c]).wf(),
        forall|m: int, c: int|
            0 <= m < bo.opened_values@.len() && 0 <= c < bo.opened_values@[m]@.len()
                ==> (#[trigger] bo.opened_values@[m]@[c]).wf(),
        idx < pow2(log_global as nat),
        log_global <= 27,
        alpha.wf(),
        old(ro)@.len() == 28,
        old(apows)@.len() == 28,
        crate::mmcs::wf_ext_seq(old(ro)@),
        crate::mmcs::wf_ext_seq(old(apows)@),
    ensures
        final(ro)@.len() == 28,
        final(apows)@.len() == 28,
        crate::mmcs::wf_ext_seq(final(ro)@),
        crate::mmcs::wf_ext_seq(final(apows)@),
        r matches Err(e) ==> final(ro)@ == old(ro)@ && final(apows)@ == old(apows)@ && ((e
            == VerificationError::FriError(FriError::InvalidProofShape)
            && crate::mmcs::batch_max_h(commit.mats@) > pow2(log_global as nat) as int) || (e
            == VerificationError::InputMmcsError && !crate::mmcs::batch_ok(
            commit.mats@,
            dims_r@,
            reduced_idx_s(idx as int, log_global as nat, commit.mats@),
            bo.opened_values@.map_values(|v: Vec<Fp>| v@),
        ))),
        r matches Ok(u) ==> {
            &&& crate::mmcs::batch_max_h(commit.mats@) <= pow2(log_global as nat) as int
            &&& crate::mmcs::batch_ok(
                commit.mats@,
                dims_r@,
                reduced_idx_s(idx as int, log_global as nat, commit.mats@),
                bo.opened_values@.map_values(|v: Vec<Fp>| v@),
            )
            &&& (views_of(final(ro)@), views_of(final(apows)@)) == acc_mats(
                (views_of(old(ro)@), views_of(old(apows)@)),
                commit.mats@,
                pts_r@,
                vals_r@,
                rows_views(bo.opened_values@),
                idx as int,
                log_global as nat,
                alpha@,
                commit.mats@.len() as nat,
            )
        },
{
    let ghost kglob = log_global as nat;
    let bmh = crate::mmcs::batch_max_height(&commit.mats);
    proof {
        crate::mmcs::lemma_batch_max_h_witness(commit.mats@);
    }
    let ghost kb = choose|k: nat|
        k < 30 && #[trigger] pow2(k) == crate::mmcs::batch_max_h(commit.mats@);
    proof {
        let mw = choose|m2: int|
            0 <= m2 < commit.mats@.len() && crate::mmcs::batch_max_h(commit.mats@) == (
            #[trigger] commit.mats@[m2]).h();
        let kw = choose|k: nat| k < 30 && #[trigger] pow2(k) == commit.mats@[mw].h();
        assert(pow2(kw) == crate::mmcs::batch_max_h(commit.mats@));
        crate::mmcs::lemma_log2_of(kb);
    }
    let log_b = log2_strict(bmh, Ghost(kb));
    if log_b > log_global {
        proof {
            lemma_pow2_strictly_increases(kglob, kb);
        }
        return Err(VerificationError::FriError(FriError::InvalidProofShape));
    }
    proof {
        assert(kb <= kglob);
        lemma_pow2_adds((kglob - kb) as nat, kb);
        lemma_pow2_pos((kglob - kb) as nat);
        assert((idx as int) < (pow2((kglob - kb) as nat) as int) * (pow2(kb) as int));
        vstd::arithmetic::div_mod::lemma_multiply_divide_lt(
            idx as int,
            pow2((kglob - kb) as nat) as int,
            pow2(kb) as int,
        );
    }
    let denomi = pow2_usize(log_global - log_b);
    let ridx = idx / denomi;
    let ok = batch_verify(commit, dims_r, ridx, &bo.opened_values, &bo.opening_proof);
    if !ok {
        return Err(VerificationError::InputMmcsError);
    }
    proof {
        assert(crate::mmcs::batch_ok(
            commit.mats@,
            dims_r@,
            reduced_idx_s(idx as int, kglob, commit.mats@),
            bo.opened_values@.map_values(|v: Vec<Fp>| v@),
        ));
        reveal(acc_mats);
    }
    let ghost st_r = (views_of(ro@), views_of(apows@));
    let mut m: usize = 0;
    while m < commit.mats.len()
        invariant
            fri.wf(),
            wf_batch(commit.mats@),
            forall|m2: int|
                0 <= m2 < commit.mats@.len() ==> pcs_height_ok(
                    #[trigger] commit.mats@[m2],
                    *fri,
                ),
            pts_r@.len() == commit.mats@.len(),
            forall|m2: int, p: int|
                0 <= m2 < commit.mats@.len() && 0 <= p < pts_r@[m2]@.len() ==> (#[trigger] pts_r@[
                    m2]@[p]).wf(),
            vals_r@.len() == commit.mats@.len(),
            forall|m2: int|
                0 <= m2 < commit.mats@.len() ==> (#[trigger] vals_r@[m2])@.len() == pts_r@[
                    m2]@.len(),
            forall|m2: int, p: int|
                0 <= m2 < commit.mats@.len() && 0 <= p < pts_r@[m2]@.len()
                    ==> (#[trigger] vals_r@[m2]@[p])@.len() == commit.mats@[m2].width,
            forall|m2: int, p: int, c: int|
                0 <= m2 < commit.mats@.len() && 0 <= p < pts_r@[m2]@.len() && 0 <= c < vals_r@[
                    m2]@[p]@.len() ==> (#[trigger] vals_r@[m2]@[p]@[c]).wf(),
            forall|m2: int, c: int|
                0 <= m2 < bo.opened_values@.len() && 0 <= c < bo.opened_values@[m2]@.len()
                    ==> (#[trigger] bo.opened_values@[m2]@[c]).wf(),
            crate::mmcs::batch_ok(
                commit.mats@,
                dims_r@,
                reduced_idx_s(idx as int, kglob, commit.mats@),
                bo.opened_values@.map_values(|v: Vec<Fp>| v@),
            ),
            pow2(kb) == crate::mmcs::batch_max_h(commit.mats@),
            kb <= kglob,
            kglob == log_global,
            log_global <= 27,
            idx < pow2(kglob),
            alpha.wf(),
            m <= commit.mats@.len(),
            ro@.len() == 28,
            apows@.len() == 28,
            crate::mmcs::wf_ext_seq(ro@),
            crate::mmcs::wf_ext_seq(apows@),
            (views_of(ro@), views_of(apows@)) == acc_mats(
                st_r,
                commit.mats@,
                pts_r@,
                vals_r@,
                rows_views(bo.opened_values@),
                idx as int,
                kglob,
                alpha@,
                m as nat,
            ),
            st_r == (views_of(old(ro)@), views_of(old(apows)@)),
        decreases commit.mats@.len() - m,
    {
        let ghost km = choose|k: nat|
            fri.log_blowup + fri.log_final_poly_len < k <= 27 && #[trigger] pow2(k)
                == commit.mats@[m as int].h();
        proof {
            crate::mmcs::lemma_batch_max_h_ge(commit.mats@, m as int);
            crate::mmcs::lemma_log2_of(km);
            if km > kglob {
                assert(pow2(km) <= crate::mmcs::batch_max_h(commit.mats@));
                if kb < km {
                    lemma_pow2_strictly_increases(kb, km);
                }
                lemma_pow2_strictly_increases(kglob, km);
                assert(false);
            }
            lemma_pow2_adds((kglob - km) as nat, km);
            lemma_pow2_pos((kglob - km) as nat);
            assert((idx as int) < (pow2((kglob - km) as nat) as int) * (pow2(km) as int));
            vstd::arithmetic::div_mod::lemma_multiply_divide_lt(
                idx as int,
                pow2((kglob - km) as nat) as int,
                pow2(km) as int,
            );
        }
        let mat_h = commit.mats[m].height();
        let log_h = log2_strict(mat_h, Ghost(km));
        let denom2 = pow2_usize(log_global - log_h);
        let midx = idx / denom2;
        let rev_idx = reverse_bits_len(midx, log_h);
        let x = Fp::new(GENERATOR).mul(Fp::two_adic_generator(log_h).pow_u64(rev_idx as u64));
        proof {
            assert(x@ == query_x(idx as int, kglob, km));
        }
        let lh = log_h;
        let pm4 = &pts_r[m];
        let vm = &vals_r[m];
        let width = commit.mats[m].width;
        proof {
            let rowsview = bo.opened_values@.map_values(|v: Vec<Fp>| v@);
            assert(rowsview.len() == commit.mats@.len());
            assert(rowsview[m as int].len() == commit.mats@[m as int].width);
            assert(rowsview[m as int] == bo.opened_values@[m as int]@);
            assert(bo.opened_values@[m as int]@.len() == commit.mats@[m as int].width);
        }
        let row = &bo.opened_values[m];
        let ghost st_m = (views_of(ro@), views_of(apows@));
        proof {
            reveal(acc_points);
        }
        let mut p: usize = 0;
        while p < pm4.len()
            invariant
                fri.wf(),
                pts_r@.len() == commit.mats@.len(),
                m < commit.mats@.len(),
                pm4 == &pts_r@[m as int],
                vm == &vals_r@[m as int],
                vm@.len() == pm4@.len(),
                forall|p2: int| 0 <= p2 < pm4@.len() ==> (#[trigger] pm4@[p2]).wf(),
                forall|p2: int|
                    0 <= p2 < pm4@.len() ==> (#[trigger] vm@[p2])@.len() == commit.mats@[
                        m as int].width,
                forall|p2: int, c: int|
                    0 <= p2 < pm4@.len() && 0 <= c < vm@[p2]@.len() ==> (#[trigger] vm@[p2]@[
                        c]).wf(),
                row == &bo.opened_values@[m as int],
                row@.len() == commit.mats@[m as int].width,
                forall|c: int| 0 <= c < row@.len() ==> (#[trigger] row@[c]).wf(),
                width == commit.mats@[m as int].width,
                lh == km,
                lh < 28,
                km == log2_of(commit.mats@[m as int].h() as nat),
                x.wf(),
                x@ == query_x(idx as int, kglob, km),
                idx < pow2(kglob),
                kglob == log_global,
                alpha.wf(),
                p <= pm4@.len(),
                ro@.len() == 28,
                apows@.len() == 28,
                crate::mmcs::wf_ext_seq(ro@),
                crate::mmcs::wf_ext_seq(apows@),
                (views_of(ro@), views_of(apows@)) == acc_points(
                    st_m,
                    lh as int,
                    x@,
                    fp_views(row@),
                    pm4@,
                    vm@,
                    alpha@,
                    width as nat,
                    p as nat,
                ),
            decreases pm4@.len() - p,
        {
            let z = pm4[p];
            let ys = &vm[p];
            let denom_e = Ext::from_base(x).sub(z);
            let inv_d = crate::ext::ext_inv(denom_e);
            proof {
                assert(inv_d@ == crate::interpolation::einv0(esub(efrom(x@), z@)));
            }
            let ghost st_p = (views_of(ro@), views_of(apows@));
            proof {
                reveal(acc_cols);
            }
            let mut c: usize = 0;
            while c < width
                invariant
                    inv_d.wf(),
                    inv_d@ == crate::interpolation::einv0(esub(efrom(x@), z@)),
                    m < commit.mats@.len(),
                    p < pm4@.len(),
                    z == pm4@[p as int],
                    z.wf(),
                    ys == &vm@[p as int],
                    ys@.len() == commit.mats@[m as int].width,
                    forall|c2: int| 0 <= c2 < ys@.len() ==> (#[trigger] ys@[c2]).wf(),
                    row == &bo.opened_values@[m as int],
                    row@.len() == commit.mats@[m as int].width,
                    forall|c2: int| 0 <= c2 < row@.len() ==> (#[trigger] row@[c2]).wf(),
                    width == commit.mats@[m as int].width,
                    lh < 28,
                    x.wf(),
                    alpha.wf(),
                    c <= width,
                    ro@.len() == 28,
                    apows@.len() == 28,
                    crate::mmcs::wf_ext_seq(ro@),
                    crate::mmcs::wf_ext_seq(apows@),
                    (views_of(ro@), views_of(apows@)) == acc_cols(
                        st_p,
                        lh as int,
                        x@,
                        z@,
                        fp_views(row@),
                        views_of(ys@),
                        alpha@,
                        c as nat,
                    ),
                decreases width - c,
            {
                let p_at_x = row[c];
                let p_at_z = ys[c];
                let quotient = Ext::from_base(p_at_x).sub(p_at_z).mul(inv_d);
                let cur = ro[lh];
                let ap = apows[lh];
                let ghost st_c = (views_of(ro@), views_of(apows@));
                ro.set(lh, cur.add(ap.mul(quotient)));
                apows.set(lh, ap.mul(alpha));
                proof {
                    reveal(acc_one);
                    reveal(acc_cols);
                    assert(fp_views(row@)[c as int] == row@[c as int]@);
                    assert(views_of(ys@)[c as int] == ys@[c as int]@);
                    let nxt = acc_one(
                        st_c,
                        lh as int,
                        x@,
                        z@,
                        row@[c as int]@,
                        ys@[c as int]@,
                        alpha@,
                    );
                    assert(views_of(ro@) =~= nxt.0);
                    assert(views_of(apows@) =~= nxt.1);
                }
                c = c + 1;
            }
            proof {
                reveal(acc_points);
                assert((views_of(ro@), views_of(apows@)) == acc_points(
                    st_m,
                    lh as int,
                    x@,
                    fp_views(row@),
                    pm4@,
                    vm@,
                    alpha@,
                    width as nat,
                    (p + 1) as nat,
                ));
            }
            p = p + 1;
        }
        proof {
            reveal(acc_mats);
            assert((views_of(ro@), views_of(apows@)) == acc_mats(
                st_r,
                commit.mats@,
                pts_r@,
                vals_r@,
                rows_views(bo.opened_values@),
                idx as int,
                kglob,
                alpha@,
                (m + 1) as nat,
            ));
        }
        m = m + 1;
    }
    proof {
        if kb < kglob {
            lemma_pow2_strictly_increases(kb, kglob);
        }
    }
    Ok(())
}

/// Recomputes one query's reduced openings across every committed batch,
/// checking each opened row on the way. On success the accumulators are
/// exactly the recomputed reduced openings of this query; on rejection
/// the failing batch is reported (as a ghost index) with what failed.
#[verifier::rlimit(100)]
fn recompute_query_ro(
    fri: &FriConfig,
    commits: &Vec<BatchCommitment>,
    points: &Vec<Vec<Vec<Ext>>>,
    dims: &Vec<Vec<Dims>>,
    values: &Vec<Vec<Vec<Vec<Ext>>>>,
    qo: &Vec<BatchOpening>,
    idx: usize,
    log_global: usize,
    alpha: Ext,
) -> (r: (Result<Vec<Ext>, VerificationError>, Ghost<int>))
    requires
        fri.wf(),
        wf_pcs_claims(commits@, points@, dims@, values@, *fri),
        values_shape_ok(commits@, points@, values@),
        qo@.len() == commits@.len(),
        forall|rd: int, m: int, c: int|
            0 <= rd < qo@.len() && 0 <= m < qo@[rd].opened_values@.len() && 0 <= c < qo@[
                rd].opened_values@[m]@.len() ==> (#[trigger] qo@[rd].opened_values@[m]@[c]).wf(),
        idx < pow2(log_global as nat),
        log_global <= 27,
        alpha.wf(),
    ensures
        r.0 matches Ok(ro) ==> {
            &&& ro@.len() == 28
            &&& crate::mmcs::wf_ext_seq(ro@)
            &&& views_of(ro@) == recomputed_ro(
                commits@,
                points@,
                values@,
                qo@,
                idx as int,
                log_global as nat,
                alpha@,
            )
            &&& forall|rd: int|
                0 <= rd < commits@.len() ==> crate::mmcs::batch_ok(
                    commits@[rd].mats@,
                    dims@[rd]@,
                    reduced_idx_s(idx as int, log_global as nat, commits@[rd].mats@),
                    (#[trigger] qo@[rd]).opened_values@.map_values(|v: Vec<Fp>| v@),
                )
            &&& forall|rd: int|
                0 <= rd < commits@.len() ==> crate::mmcs::batch_max_h(
                    (#[trigger] commits@[rd]).mats@,
                ) <= pow2(log_global as nat) as int
        },
        r.0 matches Err(e) ==> {
            &&& 0 <= r.1@ < commits@.len()
            &&& (e == VerificationError::FriError(FriError::InvalidProofShape)
                && crate::mmcs::batch_max_h(commits@[r.1@].mats@) > pow2(
                log_global as nat,
            ) as int) || (e == VerificationError::InputMmcsError && !crate::mmcs::batch_ok(
                commits@[r.1@].mats@,
                dims@[r.1@]@,
                reduced_idx_s(idx as int, log_global as nat, commits@[r.1@].mats@),
                qo@[r.1@].opened_values@.map_values(|v: Vec<Fp>| v@),
            ))
        },
{
    let ghost kglob = log_global as nat;
    let nrounds = commits.len();
    let mut ro: Vec<Ext> = Vec::new();
    let mut apows: Vec<Ext> = Vec::new();
    let mut z0: usize = 0;
    while z0 < 28
        invariant
            z0 <= 28,
            ro@.len() == z0,
            apows@.len() == z0,
            crate::mmcs::wf_ext_seq(ro@),
            crate::mmcs::wf_ext_seq(apows@),
            forall|t: int| 0 <= t < z0 ==> (#[trigger] ro@[t])@ == ezero(),
            forall|t: int| 0 <= t < z0 ==> (#[trigger] apows@[t])@ == crate::ext::eone(),
        decreases 28 - z0,
    {
        ro.push(Ext::zero());
        apows.push(Ext::one());
        z0 = z0 + 1;
    }
    proof {
        assert(views_of(ro@) =~= zeros28());
        assert(views_of(apows@) =~= ones28());
        reveal(acc_rounds);
    }
    let ghost st0 = (zeros28(), ones28());
    let mut rd: usize = 0;
    while rd < nrounds
        invariant
            fri.wf(),
            wf_pcs_claims(commits@, points@, dims@, values@, *fri),
            values_shape_ok(commits@, points@, values@),
            nrounds == commits@.len(),
            qo@.len() == nrounds,
            forall|r2: int, m: int, c: int|
                0 <= r2 < qo@.len() && 0 <= m < qo@[r2].opened_values@.len() && 0 <= c < qo@[
                    r2].opened_values@[m]@.len() ==> (#[trigger] qo@[r2].opened_values@[m]@[
                    c]).wf(),
            idx < pow2(kglob),
            kglob == log_global,
            log_global <= 27,
            alpha.wf(),
            rd <= nrounds,
            ro@.len() == 28,
            apows@.len() == 28,
            crate::mmcs::wf_ext_seq(ro@),
            crate::mmcs::wf_ext_seq(apows@),
            st0 == (zeros28(), ones28()),
            (views_of(ro@), views_of(apows@)) == acc_rounds(
                st0,
                commits@,
                points@,
                values@,
                qo@,
                idx as int,
                kglob,
                alpha@,
                rd as nat,
            ),
            forall|r2: int|
                0 <= r2 < rd ==> crate::mmcs::batch_ok(
                    commits@[r2].mats@,
                    dims@[r2]@,
                    reduced_idx_s(idx as int, kglob, commits@[r2].mats@),
                    (#[trigger] qo@[r2]).opened_values@.map_values(|v: Vec<Fp>| v@),
                ),
            forall|r2: int|
                0 <= r2 < rd ==> crate::mmcs::batch_max_h((#[trigger] commits@[r2]).mats@)
                    <= pow2(kglob) as int,
        decreases nrounds - rd,
    {
        let cr = &commits[rd];
        let bo = &qo[rd];
        let ghost st_r = (views_of(ro@), views_of(apows@));
        match accumulate_batch(
            fri,
            cr,
            &dims[rd],
            &points[rd],
            &values[rd],
            bo,
            idx,
            log_global,
            alpha,
            &mut ro,
            &mut apows,
        ) {
            Ok(u) => {
                proof {
                    reveal(acc_rounds);
                    assert((views_of(ro@), views_of(apows@)) == acc_rounds(
                        st0,
                        commits@,
                        points@,
                        values@,
                        qo@,
                        idx as int,
                        kglob,
                        alpha@,
                        (rd + 1) as nat,
                    ));
                }
            },
            Err(e) => {
                return (Err(e), Ghost(rd as int));
            },
        }
        rd = rd + 1;
    }
    (Ok(ro), Ghost(0))
}

impl TwoAdicFriPcs {
    /// Verifies a batched multi-point opening: replays the transcript to
    /// derive the batching challenge, the folding challenges and the
    /// query indices, checks the claimed values' shape and every opened
    /// batch row against its commitment, recomputes every
    /// reduced-opening quotient from the claimed values, and hands the
    /// reduced openings to the FRI verifier. It accepts exactly when
    /// every one of those checks passes; any mismatch is a terminal
    /// reject. On acceptance the height-scaled query positions are
    /// returned as a ghost sequence.
    #[verifier::rlimit(100)]
    pub fn verify_multi_batches(
        &self,
        commits: &Vec<BatchCommitment>,
        points: &Vec<Vec<Vec<Ext>>>,
        dims: &Vec<Vec<Dims>>,
        values: &Vec<Vec<Vec<Vec<Ext>>>>,
        proof: &TwoAdicFriPcsProof,
        challenger: &mut Challenger,
    ) -> (r: (Result<(), VerificationError>, Ghost<Seq<int>>))
        requires
            self.fri.wf(),
            old(challenger).wf(),
            wf_pcs_claims(commits@, points@, dims@, values@, self.fri),
            wf_pcs_proof(*proof),
        ensures
            final(challenger).wf(),
            (r.0 is Ok) <==> pcs_accepts(
                self.fri,
                commits@,
                points@,
                dims@,
                values@,
                *proof,
                old(challenger).st@,
            ),
            r.0 matches Ok(u) ==> {
                let kglob = (proof.fri_proof.commit_phase_commits@.len() + self.fri.log_blowup
                    + self.fri.log_final_poly_len) as nat;
                &&& proof.query_openings@.len() == self.fri.num_queries
                &&& r.1@.len() == self.fri.num_queries
                &&& forall|q: int| 0 <= q < r.1@.len() ==> 0 <= #[trigger] r.1@[q] < pow2(kglob)
                &&& forall|q: int, rd: int|
                    0 <= q < self.fri.num_queries && 0 <= rd < commits@.len()
                        ==> crate::mmcs::batch_ok(
                        commits@[rd].mats@,
                        dims@[rd]@,
                        reduced_idx_s(r.1@[q], kglob, commits@[rd].mats@),
                        (#[trigger] proof.query_openings@[q]@[rd]).opened_values@.map_values(
                            |v: Vec<Fp>| v@,
                        ),
                    )
            },
    {
        let ghost s0 = old(challenger).st@;
        let stop_bits = self.fri.log_blowup + self.fri.log_final_poly_len;
        let nrounds = commits.len();

        // The claimed values must have one entry per matrix, point and
        // column; a wrong shape is an ordinary reject.
        let mut vr: usize = 0;
        if values.len() != nrounds {
            proof {
                if pcs_accepts(self.fri, commits@, points@, dims@, values@, *proof, s0) {
                    reveal(pcs_accepts);
                    assert(values_shape_ok(commits@, points@, values@));
                }
            }
            return (
                (Err(VerificationError::FriError(FriError::InvalidProofShape))),
                Ghost(Seq::empty()),
            );
        }
        while vr < nrounds
            invariant
                challenger.wf(),
                challenger.st@ == s0,
                wf_pcs_claims(commits@, points@, dims@, values@, self.fri),
                nrounds == commits@.len(),
                values@.len() == nrounds,
                vr <= nrounds,
                forall|r2: int|
                    0 <= r2 < vr ==> (#[trigger] values@[r2])@.len() == commits@[r2].mats@.len(),
                forall|r2: int, m: int|
                    0 <= r2 < vr && 0 <= m < commits@[r2].mats@.len()
                        ==> (#[trigger] values@[r2]@[m])@.len() == points@[r2]@[m]@.len(),
                forall|r2: int, m: int, p: int|
                    0 <= r2 < vr && 0 <= m < commits@[r2].mats@.len() && 0 <= p < points@[r2]@[
                        m]@.len() ==> (#[trigger] values@[r2]@[m]@[p])@.len() == commits@[
                        r2].mats@[m].width,
            decreases nrounds - vr,
        {
            let vround = &values[vr];
            if vround.len() != commits[vr].mats.len() {
                proof {
                    if pcs_accepts(self.fri, commits@, points@, dims@, values@, *proof, s0) {
                        reveal(pcs_accepts);
                        assert(values_shape_ok(commits@, points@, values@));
                        assert((#[trigger] values@[vr as int])@.len() == commits@[
                            vr as int].mats@.len());
                    }
                }
                return (
                    (Err(VerificationError::FriError(FriError::InvalidProofShape))),
                    Ghost(Seq::empty()),
                );
            }
            let mut vm: usize = 0;
            while vm < vround.len()
                invariant
                    challenger.wf(),
                    challenger.st@ == s0,
                    wf_pcs_claims(commits@, points@, dims@, values@, self.fri),
                    nrounds == commits@.len(),
                    vr < nrounds,
                    vround == &values@[vr as int],
                    vround@.len() == commits@[vr as int].mats@.len(),
                    vm <= vround@.len(),
                    forall|m: int|
                        0 <= m < vm ==> (#[trigger] values@[vr as int]@[m])@.len() == points@[
                            vr as int]@[m]@.len(),
                    forall|m: int, p: int|
                        0 <= m < vm && 0 <= p < points@[vr as int]@[m]@.len()
                            ==> (#[trigger] values@[vr as int]@[m]@[p])@.len() == commits@[
                            vr as int].mats@[m].width,
                decreases vround@.len() - vm,
            {
                let vmat = &vround[vm];
                if vmat.len() != points[vr][vm].len() {
                    proof {
                        if pcs_accepts(self.fri, commits@, points@, dims@, values@, *proof, s0) {
                            reveal(pcs_accepts);
                            assert(values_shape_ok(commits@, points@, values@));
                            assert((#[trigger] values@[vr as int]@[vm as int])@.len() == points@[
                                vr as int]@[vm as int]@.len());
                        }
                    }
                    return (
                        (Err(VerificationError::FriError(FriError::InvalidProofShape))),
                        Ghost(Seq::empty()),
                    );
                }
                let mut vp: usize = 0;
                while vp < vmat.len()
                    invariant
                        challenger.wf(),
                        challenger.st@ == s0,
                        wf_pcs_claims(commits@, points@, dims@, values@, self.fri),
                        nrounds == commits@.len(),
                        vr < nrounds,
                        vround == &values@[vr as int],
                        vround@.len() == commits@[vr as int].mats@.len(),
                        vm < vround@.len(),
                        vmat == &values@[vr as int]@[vm as int],
                        vmat@.len() == points@[vr as int]@[vm as int]@.len(),
                        vp <= vmat@.len(),
                        forall|p: int|
                            0 <= p < vp ==> (#[trigger] values@[vr as int]@[vm as int]@[
                                p])@.len() == commits@[vr as int].mats@[vm as int].width,
                    decreases vmat@.len() - vp,
                {
                    if vmat[vp].len() != commits[vr].mats[vm].width {
                        proof {
                            if pcs_accepts(
                                self.fri,
                                commits@,
                                points@,
                                dims@,
                                values@,
                                *proof,
                                s0,
                            ) {
                                reveal(pcs_accepts);
                                assert(values_shape_ok(commits@, points@, values@));
                                assert((#[trigger] values@[vr as int]@[vm as int]@[
                                    vp as int])@.len() == commits@[vr as int].mats@[
                                    vm as int].width);
                            }
                        }
                        return (
                            (Err(VerificationError::FriError(FriError::InvalidProofShape))),
                            Ghost(Seq::empty()),
                        );
                    }
                    vp = vp + 1;
                }
                vm = vm + 1;
            }
            vr = vr + 1;
        }

        proof {
            assert(values_shape_ok(commits@, points@, values@));
        }
        let alpha = challenger.sample_ext();
        let ghost alpha_s = squeeze4(s0);
        let ghost s_a = squeeze4_state(s0);
        let fri_challenges = match crate::fri_verifier::verify_shape_and_sample_challenges(
            &self.fri,
            &proof.fri_proof,
            challenger,
        ) {
            Ok(c) => c,
            Err(e) => {
                proof {
                    if pcs_accepts(self.fri, commits@, points@, dims@, values@, *proof, s0) {
                        reveal(pcs_accepts);
                        assert(crate::fri_verifier::proof_shape_ok(self.fri, proof.fri_proof)
                            && crate::fri_verifier::pow_ok(self.fri, proof.fri_proof, s_a));
                    }
                }
                return (Err(VerificationError::FriError(e)), Ghost(Seq::empty()));
            },
        };
        let frounds = proof.fri_proof.commit_phase_commits.len();
        let log_global = frounds + stop_bits;
        let ghost kglob = log_global as nat;
        let ghost words = crate::fri_verifier::commit_views(proof.fri_proof.commit_phase_commits@);
        let ghost s2v = squeeze(
            absorb(
                crate::fri_verifier::replay_pre_pow_state(proof.fri_proof, s_a),
                proof.fri_proof.pow_witness@,
            ),
        );
        let ghost betas_s = Seq::new(
            proof.fri_proof.commit_phase_commits@.len(),
            |i: int|
                squeeze4(
                    absorb_ext_seq(
                        crate::fri_verifier::obs_rounds_state(words, s_a, i as nat),
                        words[i],
                    ),
                ),
        );
        proof {
            assert(views_of(fri_challenges.betas@) =~= betas_s);
        }
        if proof.query_openings.len() != self.fri.num_queries {
            proof {
                if pcs_accepts(self.fri, commits@, points@, dims@, values@, *proof, s0) {
                    reveal(pcs_accepts);
                    assert(proof.query_openings@.len() == self.fri.num_queries);
                }
            }
            return (
                (Err(VerificationError::FriError(FriError::InvalidProofShape))),
                Ghost(Seq::empty()),
            );
        }
        let nq = self.fri.num_queries;
        let mut ros: Vec<Vec<Ext>> = Vec::new();
        let ghost mut gidx: Seq<int> = Seq::empty();
        let mut q: usize = 0;
        while q < nq
            invariant
                self.fri.wf(),
                wf_pcs_claims(commits@, points@, dims@, values@, self.fri),
                wf_pcs_proof(*proof),
                values_shape_ok(commits@, points@, values@),
                challenger.wf(),
                alpha.wf(),
                alpha@ == alpha_s,
                nrounds == commits@.len(),
                stop_bits == self.fri.log_blowup + self.fri.log_final_poly_len,
                nq == self.fri.num_queries,
                frounds == proof.fri_proof.commit_phase_commits@.len(),
                log_global == frounds + stop_bits,
                log_global <= 27,
                kglob == log_global,
                proof.query_openings@.len() == nq,
                fri_challenges.query_indices@.len() == nq,
                forall|t: int|
                    0 <= t < nq ==> (#[trigger] fri_challenges.query_indices@[t]) < pow2(kglob),
                forall|t: int|
                    0 <= t < nq ==> (#[trigger] fri_challenges.query_indices@[t]) == squeeze_n(
                        s2v,
                        (t + 1) as nat,
                    ) % (pow2(kglob) as int),
                fri_challenges.betas@.len() == frounds,
                forall|t: int|
                    0 <= t < frounds ==> (#[trigger] fri_challenges.betas@[t]).wf(),
                views_of(fri_challenges.betas@) == betas_s,
                proof.fri_proof.query_proofs@.len() == nq,
                q > 0 ==> forall|rd: int|
                    0 <= rd < nrounds ==> crate::mmcs::batch_max_h(
                        (#[trigger] commits@[rd]).mats@,
                    ) <= pow2(kglob) as int,
                q <= nq,
                ros@.len() == q,
                gidx.len() == q,
                forall|t: int|
                    0 <= t < q ==> (#[trigger] ros@[t])@.len() == 28 && crate::mmcs::wf_ext_seq(
                        ros@[t]@,
                    ),
                kglob == pcs_kglob(self.fri, *proof),
                s2v == pcs_s2v(self.fri, *proof, s0),
                alpha_s == squeeze4(s0),
                s0 == old(challenger).st@,
                forall|t: int|
                    0 <= t < q ==> #[trigger] views_of(ros@[t]@) == recomputed_ro(
                        commits@,
                        points@,
                        values@,
                        proof.query_openings@[t]@,
                        pcs_idx(self.fri, *proof, s0, t),
                        kglob,
                        alpha_s,
                    ),
                forall|t: int|
                    0 <= t < q ==> 0 <= #[trigger] gidx[t] < pow2(kglob) && gidx[t]
                        == fri_challenges.query_indices@[t] && gidx[t] == pcs_idx(
                        self.fri,
                        *proof,
                        s0,
                        t,
                    ),
                forall|t: int|
                    0 <= t < q ==> (#[trigger] proof.query_openings@[t])@.len() == nrounds,
                forall|q2: int, rd: int|
                    0 <= q2 < q && 0 <= rd < nrounds ==> crate::mmcs::batch_ok(
                        commits@[rd].mats@,
                        dims@[rd]@,
                        reduced_idx_s(gidx[q2], kglob, commits@[rd].mats@),
                        (#[trigger] proof.query_openings@[q2]@[rd]).opened_values@.map_values(
                            |v: Vec<Fp>| v@,
                        ),
                    ),
            decreases nq - q,
        {
            let idx = fri_challenges.query_indices[q];
            let qo = &proof.query_openings[q];
            if qo.len() != nrounds {
                proof {
                    if pcs_accepts(self.fri, commits@, points@, dims@, values@, *proof, s0) {
                        reveal(pcs_accepts);
                        assert((#[trigger] proof.query_openings@[q as int])@.len()
                            == commits@.len());
                    }
                }
                return (
                    (Err(VerificationError::FriError(FriError::InvalidProofShape))),
                    Ghost(Seq::empty()),
                );
            }
            proof {
                assert(idx as int == pcs_idx(self.fri, *proof, s0, q as int));
            }
            let rres = recompute_query_ro(
                &self.fri,
                commits,
                points,
                dims,
                values,
                qo,
                idx,
                log_global,
                alpha,
            );
            let ro = match rres.0 {
                Ok(ro) => ro,
                Err(e) => {
                    proof {
                        if e == VerificationError::InputMmcsError {
                            lemma_accepts_needs_batch(
                                self.fri,
                                commits@,
                                points@,
                                dims@,
                                values@,
                                *proof,
                                s0,
                                q as int,
                                rres.1@,
                            );
                        } else {
                            lemma_accepts_needs_heights(
                                self.fri,
                                commits@,
                                points@,
                                dims@,
                                values@,
                                *proof,
                                s0,
                                rres.1@,
                            );
                        }
                    }
                    return (Err(e), Ghost(Seq::empty()));
                },
            };
            ros.push(ro);
            proof {
                gidx = gidx.push(idx as int);
            }
            q = q + 1;
        }
        proof {
            assert(betas_s == pcs_betas(*proof, s0));
            assert forall|t: int| 0 <= t < nq implies #[trigger] views_of(ros@[t]@)
                == recomputed_ro(
                commits@,
                points@,
                values@,
                proof.query_openings@[t]@,
                pcs_idx(self.fri, *proof, s0, t),
                pcs_kglob(self.fri, *proof),
                squeeze4(s0),
            ) by {
                assert(views_of(ros@[t]@) == recomputed_ro(
                    commits@,
                    points@,
                    values@,
                    proof.query_openings@[t]@,
                    pcs_idx(self.fri, *proof, s0, t),
                    kglob,
                    alpha_s,
                ));
            }
        }
        match crate::fri_verifier::verify_challenges(
            &self.fri,
            &proof.fri_proof,
            &fri_challenges,
            &ros,
        ) {
            Ok(u) => {
                proof {
                    assert(openings_shape_ok(self.fri, commits@, *proof));
                    assert(heights_fit(self.fri, commits@, *proof));
                    assert(pcs_batches_ok(self.fri, commits@, dims@, *proof, s0)) by {
                        assert forall|q2: int, rd2: int|
                            0 <= q2 < self.fri.num_queries && 0 <= rd2 < commits@.len()
                            implies crate::mmcs::batch_ok(
                            commits@[rd2].mats@,
                            dims@[rd2]@,
                            reduced_idx_s(
                                pcs_idx(self.fri, *proof, s0, q2),
                                pcs_kglob(self.fri, *proof),
                                commits@[rd2].mats@,
                            ),
                            (#[trigger] proof.query_openings@[q2]@[rd2]).opened_values@
                                .map_values(|v: Vec<Fp>| v@),
                        ) by {
                            assert(gidx[q2] == pcs_idx(self.fri, *proof, s0, q2));
                        }
                    };
                    assert(pcs_fri_ok(self.fri, commits@, points@, values@, *proof, s0)) by {
                        assert forall|q2: int|
                            0 <= q2 < self.fri.num_queries
                            implies #[trigger] crate::fri_verifier::query_accepted(
                            self.fri,
                            proof.fri_proof.commit_phase_commits@,
                            proof.fri_proof.final_poly@,
                            pcs_betas(*proof, s0),
                            proof.fri_proof.query_proofs@[q2].commit_phase_openings@,
                            pcs_idx(self.fri, *proof, s0, q2),
                            recomputed_ro(
                                commits@,
                                points@,
                                values@,
                                proof.query_openings@[q2]@,
                                pcs_idx(self.fri, *proof, s0, q2),
                                pcs_kglob(self.fri, *proof),
                                squeeze4(s0),
                            ),
                        ) by {
                            assert(crate::fri_verifier::query_accepted(
                                self.fri,
                                proof.fri_proof.commit_phase_commits@,
                                proof.fri_proof.final_poly@,
                                views_of(fri_challenges.betas@),
                                proof.fri_proof.query_proofs@[q2].commit_phase_openings@,
                                fri_challenges.query_indices@[q2] as int,
                                views_of(ros@[q2]@),
                            ));
                            assert(fri_challenges.query_indices@[q2] as int == pcs_idx(
                                self.fri,
                                *proof,
                                s0,
                                q2,
                            ));
                        }
                    };
                    lemma_accepts_from_checks(
                        self.fri,
                        commits@,
                        points@,
                        dims@,
                        values@,
                        *proof,
                        s0,
                    );
                }
                (Ok(u), Ghost(gidx))
            },
            Err(e) => {
                proof {
                    assert(!pcs_fri_ok(self.fri, commits@, points@, values@, *proof, s0)) by {
                        if pcs_fri_ok(self.fri, commits@, points@, values@, *proof, s0) {
                            assert forall|q2: int|
                                0 <= q2 < self.fri.num_queries
                                implies #[trigger] crate::fri_verifier::query_accepted(
                                self.fri,
                                proof.fri_proof.commit_phase_commits@,
                                proof.fri_proof.final_poly@,
                                views_of(fri_challenges.betas@),
                                proof.fri_proof.query_proofs@[q2].commit_phase_openings@,
                                fri_challenges.query_indices@[q2] as int,
                                views_of(ros@[q2]@),
                            ) by {
                                assert(crate::fri_verifier::query_accepted(
                                    self.fri,
                                    proof.fri_proof.commit_phase_commits@,
                                    proof.fri_proof.final_poly@,
                                    pcs_betas(*proof, s0),
                                    proof.fri_proof.query_proofs@[q2].commit_phase_openings@,
                                    pcs_idx(self.fri, *proof, s0, q2),
                                    recomputed_ro(
                                        commits@,
                                        points@,
                                        values@,
                                        proof.query_openings@[q2]@,
                                        pcs_idx(self.fri, *proof, s0, q2),
                                        pcs_kglob(self.fri, *proof),
                                        squeeze4(s0),
                                    ),
                                ));
                                assert(fri_challenges.query_indices@[q2] as int == pcs_idx(
                                    self.fri,
                                    *proof,
                                    s0,
                                    q2,
                                ));
                            }
                        }
                    };
                    lemma_rejects_from_fri(
                        self.fri,
                        commits@,
                        points@,
                        dims@,
                        values@,
                        *proof,
                        s0,
                    );
                }
                (Err(VerificationError::FriError(e)), Ghost(Seq::empty()))
            },
        }
    }
}

} // verus!
