//! The quartic binomial extension of the base field, `F[X] / (X^4 - W)`
//! with `W = 11`, with verified arithmetic.

use vstd::prelude::*;
use p3_baby_bear::BabyBear;
use p3_field::extension::BinomialExtensionField;
use p3_field::{BasedVectorSpace, Field, PrimeField32};
use crate::field::{fadd, fmul, fneg, fsub, pm, Fp};

verus! {

/// The defining constant of the extension: `X^4 = W`.
pub const W: u32 = 11;

/// A well-formed extension value: four reduced base-field coordinates.
pub open spec fn wfe(a: Seq<int>) -> bool {
    &&& a.len() == 4
    &&& forall|i: int| 0 <= i < 4 ==> 0 <= #[trigger] a[i] < pm()
}

pub open spec fn ezero() -> Seq<int> {
    seq![0, 0, 0, 0]
}

pub open spec fn eone() -> Seq<int> {
    seq![1, 0, 0, 0]
}

/// The embedding of a base-field value.
pub open spec fn efrom(x: int) -> Seq<int> {
    seq![x, 0, 0, 0]
}

pub open spec fn eadd(a: Seq<int>, b: Seq<int>) -> Seq<int> {
    seq![
        fadd(a[0], b[0]),
        fadd(a[1], b[1]),
        fadd(a[2], b[2]),
        fadd(a[3], b[3]),
    ]
}

pub open spec fn esub(a: Seq<int>, b: Seq<int>) -> Seq<int> {
    seq![
        fsub(a[0], b[0]),
        fsub(a[1], b[1]),
        fsub(a[2], b[2]),
        fsub(a[3], b[3]),
    ]
}

pub open spec fn eneg(a: Seq<int>) -> Seq<int> {
    seq![fneg(a[0]), fneg(a[1]), fneg(a[2]), fneg(a[3])]
}

/// The product in the extension: polynomial product reduced by `X^4 = W`.
pub open spec fn emul(a: Seq<int>, b: Seq<int>) -> Seq<int> {
    seq![
        fadd(
            fmul(a[0], b[0]),
            fmul(W as int, fadd(fmul(a[1], b[3]), fadd(fmul(a[2], b[2]), fmul(a[3], b[1])))),
        ),
        fadd(
            fmul(a[0], b[1]),
            fadd(fmul(a[1], b[0]), fmul(W as int, fadd(fmul(a[2], b[3]), fmul(a[3], b[2])))),
        ),
        fadd(
            fmul(a[0], b[2]),
            fadd(fmul(a[1], b[1]), fadd(fmul(a[2], b[0]), fmul(W as int, fmul(a[3], b[3])))),
        ),
        fadd(fmul(a[0], b[3]), fadd(fmul(a[1], b[2]), fadd(fmul(a[2], b[1]), fmul(a[3], b[0])))),
    ]
}

/// Scaling by a base-field value, coordinate by coordinate.
pub open spec fn escale(x: int, a: Seq<int>) -> Seq<int> {
    seq![fmul(x, a[0]), fmul(x, a[1]), fmul(x, a[2]), fmul(x, a[3])]
}

/// `a` raised to the `e`-th power in the extension.
pub open spec fn epow(a: Seq<int>, e: nat) -> Seq<int>
    decreases e,
{
    if e == 0 {
        eone()
    } else {
        emul(a, epow(a, (e - 1) as nat))
    }
}

/// The multiplicative inverse in the extension, when one exists.
pub open spec fn einv(a: Seq<int>) -> Seq<int> {
    choose|r: Seq<int>| wfe(r) && emul(r, a) == eone()
}

/// An element of the quartic extension field, with reduced coordinates.
#[derive(Clone, Copy, PartialEq, Eq, Structural, Hash, Debug)]
pub struct Ext {
    pub c0: Fp,
    pub c1: Fp,
    pub c2: Fp,
    pub c3: Fp,
}

impl View for Ext {
    type V = Seq<int>;

    open spec fn view(&self) -> Seq<int> {
        seq![self.c0@, self.c1@, self.c2@, self.c3@]
    }
}

impl Ext {
    pub open spec fn wf(self) -> bool {
        self.c0.wf() && self.c1.wf() && self.c2.wf() && self.c3.wf()
    }

    pub proof fn lemma_wf_view(self)
        requires
            self.wf(),
        ensures
            wfe(self@),
    {
    }

    pub fn new(c0: Fp, c1: Fp, c2: Fp, c3: Fp) -> (r: Ext)
        requires
            c0.wf(),
            c1.wf(),
            c2.wf(),
            c3.wf(),
        ensures
            r.wf(),
            r@ == seq![c0@, c1@, c2@, c3@],
    {
        Ext { c0, c1, c2, c3 }
    }

    pub fn zero() -> (r: Ext)
        ensures
            r.wf(),
            r@ == ezero(),
    {
        let z = Fp::zero();
        let r = Ext { c0: z, c1: z, c2: z, c3: z };
        proof {
            assert(r@ =~= ezero());
        }
        r
    }

    pub fn one() -> (r: Ext)
        ensures
            r.wf(),
            r@ == eone(),
    {
        let r = Ext { c0: Fp::one(), c1: Fp::zero(), c2: Fp::zero(), c3: Fp::zero() };
        proof {
            assert(r@ =~= eone());
        }
        r
    }

    pub fn from_base(x: Fp) -> (r: Ext)
        requires
            x.wf(),
        ensures
            r.wf(),
            r@ == efrom(x@),
    {
        let z = Fp::zero();
        let r = Ext { c0: x, c1: z, c2: z, c3: z };
        proof {
            assert(r@ =~= efrom(x@));
        }
        r
    }

    pub fn is_zero(self) -> (r: bool)
        requires
            self.wf(),
        ensures
            r <==> self@ == ezero(),
    {
        let r = self.c0.v == 0 && self.c1.v == 0 && self.c2.v == 0 && self.c3.v == 0;
        proof {
            if r {
                assert(self@ =~= ezero());
            } else {
                assert(self@ != ezero());
            }
        }
        r
    }

    pub fn add(self, other: Ext) -> (r: Ext)
        requires
            self.wf(),
            other.wf(),
        ensures
            r.wf(),
            r@ == eadd(self@, other@),
    {
        let r = Ext {
            c0: self.c0.add(other.c0),
            c1: self.c1.add(other.c1),
            c2: self.c2.add(other.c2),
            c3: self.c3.add(other.c3),
        };
        proof {
            assert(r@ =~= eadd(self@, other@));
        }
        r
    }

    pub fn sub(self, other: Ext) -> (r: Ext)
        requires
            self.wf(),
            other.wf(),
        ensures
            r.wf(),
            r@ == esub(self@, other@),
    {
        let r = Ext {
            c0: self.c0.sub(other.c0),
            c1: self.c1.sub(other.c1),
            c2: self.c2.sub(other.c2),
            c3: self.c3.sub(other.c3),
        };
        proof {
            assert(r@ =~= esub(self@, other@));
        }
        r
    }

    pub fn neg(self) -> (r: Ext)
        requires
            self.wf(),
        ensures
            r.wf(),
            r@ == eneg(self@),
    {
        let r = Ext {
            c0: self.c0.neg(),
            c1: self.c1.neg(),
            c2: self.c2.neg(),
            c3: self.c3.neg(),
        };
        proof {
            assert(r@ =~= eneg(self@));
        }
        r
    }

    #[verifier::rlimit(50)]
    pub fn mul(self, other: Ext) -> (r: Ext)
        requires
            self.wf(),
            other.wf(),
        ensures
            r.wf(),
            r@ == emul(self@, other@),
    {
        let w = Fp::new(W);
        let (a0, a1, a2, a3) = (self.c0, self.c1, self.c2, self.c3);
        let (b0, b1, b2, b3) = (other.c0, other.c1, other.c2, other.c3);
        let r0 = a0.mul(b0).add(w.mul(a1.mul(b3).add(a2.mul(b2).add(a3.mul(b1)))));
        let r1 = a0.mul(b1).add(a1.mul(b0).add(w.mul(a2.mul(b3).add(a3.mul(b2)))));
        let r2 = a0.mul(b2).add(a1.mul(b1).add(a2.mul(b0).add(w.mul(a3.mul(b3)))));
        let r3 = a0.mul(b3).add(a1.mul(b2).add(a2.mul(b1).add(a3.mul(b0))));
        let r = Ext { c0: r0, c1: r1, c2: r2, c3: r3 };
        proof {
            assert(r@ =~= emul(self@, other@));
        }
        r
    }

    /// Scales by a base-field value, coordinate by coordinate.
    pub fn scale(self, x: Fp) -> (r: Ext)
        requires
            self.wf(),
            x.wf(),
        ensures
            r.wf(),
            r@ == escale(x@, self@),
    {
        let r = Ext {
            c0: x.mul(self.c0),
            c1: x.mul(self.c1),
            c2: x.mul(self.c2),
            c3: x.mul(self.c3),
        };
        proof {
            assert(r@ =~= escale(x@, self@));
        }
        r
    }

    /// Repeated-multiplication exponentiation.
    pub fn exp_u64(self, e: u64) -> (r: Ext)
        requires
            self.wf(),
        ensures
            r.wf(),
            r@ == epow(self@, e as nat),
    {
        let mut acc = Ext::one();
        let mut i: u64 = 0;
        while i < e
            invariant
                self.wf(),
                acc.wf(),
                i <= e,
                acc@ == epow(self@, i as nat),
            decreases e - i,
        {
            proof {
                lemma_epow_peel(self@, i as nat);
            }
            acc = self.mul(acc);
            i = i + 1;
        }
        acc
    }
}

/// Unrolls one multiplication off the front of a power.
pub proof fn lemma_epow_peel(a: Seq<int>, e: nat)
    ensures
        emul(a, epow(a, e)) == epow(a, (e + 1) as nat),
{
}

/// Relies on `p3_field::Field::try_inverse` for
/// `p3_field::extension::BinomialExtensionField<p3_baby_bear::BabyBear, 4>`
/// (the same binomial extension, `X^4 = 11`): for a nonzero element it
/// returns `Some` of the multiplicative inverse, for zero it returns
/// `None`. A field element has exactly one multiplicative inverse, so the
/// result is also `einv` of the argument. Zero is mapped to zero here, so
/// the function is total and verification never panics on adversarial
/// input.
#[verifier::external_body]
pub fn ext_inv(a: Ext) -> (r: Ext)
    requires
        a.wf(),
    ensures
        r.wf(),
        a@ != ezero() ==> emul(r@, a@) == eone() && r@ == einv(a@),
        a@ == ezero() ==> r@ == ezero(),
{
    let x = BinomialExtensionField::new(BabyBear::new_array([a.c0.v, a.c1.v, a.c2.v, a.c3.v]));
    let y = Field::try_inverse(&x).unwrap_or(BinomialExtensionField::new(BabyBear::new_array([0; 4])));
    let c: &[BabyBear] = BasedVectorSpace::as_basis_coefficients_slice(&y);
    let f = |i: usize| Fp { v: PrimeField32::as_canonical_u32(&c[i]) };
    Ext { c0: f(0), c1: f(1), c2: f(2), c3: f(3) }
}

/// Inverts every entry of a slice, mapping zero to zero.
pub fn batch_inverse(xs: &Vec<Ext>) -> (r: Vec<Ext>)
    requires
        forall|i: int| 0 <= i < xs@.len() ==> (#[trigger] xs@[i]).wf(),
    ensures
        r@.len() == xs@.len(),
        forall|i: int| 0 <= i < xs@.len() ==> (#[trigger] r@[i]).wf(),
        forall|i: int|
            0 <= i < xs@.len() && xs@[i]@ != ezero() ==> emul(#[trigger] r@[i]@, xs@[i]@) == eone()
                && r@[i]@ == einv(xs@[i]@),
        forall|i: int| 0 <= i < xs@.len() && xs@[i]@ == ezero() ==> #[trigger] r@[i]@ == ezero(),
{
    let mut r: Vec<Ext> = Vec::new();
    let mut i: usize = 0;
    while i < xs.len()
        invariant
            i <= xs@.len(),
            r@.len() == i,
            forall|k: int| 0 <= k < xs@.len() ==> (#[trigger] xs@[k]).wf(),
            forall|k: int| 0 <= k < i ==> (#[trigger] r@[k]).wf(),
            forall|k: int|
                0 <= k < i && xs@[k]@ != ezero() ==> emul(#[trigger] r@[k]@, xs@[k]@) == eone()
                    && r@[k]@ == einv(xs@[k]@),
            forall|k: int| 0 <= k < i && xs@[k]@ == ezero() ==> #[trigger] r@[k]@ == ezero(),
        decreases xs@.len() - i,
    {
        let inv = ext_inv(xs[i]);
        r.push(inv);
        i = i + 1;
    }
    r
}

/// Extension values with equal views are equal.
pub proof fn lemma_ext_eq(a: Ext, b: Ext)
    requires
        a@ == b@,
    ensures
        a == b,
{
    assert(a@[0] == b@[0] && a@[1] == b@[1] && a@[2] == b@[2] && a@[3] == b@[3]);
    assert(a.c0.v == b.c0.v && a.c1.v == b.c1.v && a.c2.v == b.c2.v && a.c3.v == b.c3.v);
}

/// The views of a slice of extension values.
pub open spec fn views_of(s: Seq<Ext>) -> Seq<Seq<int>> {
    s.map_values(|e: Ext| e@)
}

/// A polynomial, given by its coefficients in ascending degree order,
/// evaluated at `x`.
pub open spec fn epoly_eval(coeffs: Seq<Seq<int>>, x: Seq<int>) -> Seq<int>
    decreases coeffs.len(),
{
    if coeffs.len() == 0 {
        ezero()
    } else {
        eadd(coeffs[0], emul(x, epoly_eval(coeffs.drop_first(), x)))
    }
}

/// Evaluates a polynomial at `x` by Horner's rule.
pub fn eval_poly(coeffs: &Vec<Ext>, x: Ext) -> (r: Ext)
    requires
        x.wf(),
        forall|i: int| 0 <= i < coeffs@.len() ==> (#[trigger] coeffs@[i]).wf(),
    ensures
        r.wf(),
        r@ == epoly_eval(views_of(coeffs@), x@),
{
    let ghost cv = views_of(coeffs@);
    let mut acc = Ext::zero();
    let mut i: usize = coeffs.len();
    proof {
        assert(cv.subrange(coeffs@.len() as int, coeffs@.len() as int) =~= Seq::<Seq<int>>::empty());
    }
    while i > 0
        invariant
            x.wf(),
            acc.wf(),
            i <= coeffs@.len(),
            cv == views_of(coeffs@),
            forall|k: int| 0 <= k < coeffs@.len() ==> (#[trigger] coeffs@[k]).wf(),
            acc@ == epoly_eval(cv.subrange(i as int, cv.len() as int), x@),
        decreases i,
    {
        i = i - 1;
        acc = coeffs[i].add(x.mul(acc));
        proof {
            let tail = cv.subrange(i as int, cv.len() as int);
            assert(tail.drop_first() =~= cv.subrange(i + 1, cv.len() as int));
            assert(tail[0] == coeffs@[i as int]@);
        }
    }
    proof {
        assert(cv.subrange(0, cv.len() as int) =~= cv);
    }
    acc
}

} // verus!
