//! The Fiat-Shamir transcript: a deterministic sponge over the base field.
//!
//! Prover and verifier drive the same sequence of `observe` / `sample` /
//! `grind` calls, so both derive identical challenges. The mixing function
//! is a simple affine sponge; it is a pluggable capability of the protocol,
//! and every state transition is stated exactly in the contracts.

use vstd::prelude::*;
use vstd::arithmetic::div_mod::{
    lemma_add_mod_noop_right, lemma_mod_bound, lemma_mod_self_0, lemma_mul_mod_noop_general,
    lemma_small_mod, lemma_sub_mod_noop_right,
};
use vstd::arithmetic::mul::lemma_mul_is_associative;
use vstd::arithmetic::power2::pow2;
use crate::bits::pow2_usize;
use crate::ext::Ext;
use crate::field::{fadd, fmul, fp_inv, fsub, pm, Fp, P};

verus! {

/// The sponge's mixing multiplier.
pub const MIX: u32 = 31;

/// The state after absorbing one base-field value.
pub open spec fn absorb(s: int, x: int) -> int {
    fadd(fmul(MIX as int, s), x)
}

/// The state after absorbing the four coordinates of an extension value.
pub open spec fn absorb_ext(s: int, e: Seq<int>) -> int {
    absorb(absorb(absorb(absorb(s, e[0]), e[1]), e[2]), e[3])
}

/// The state after one squeeze; the squeezed value is the new state.
pub open spec fn squeeze(s: int) -> int {
    fadd(fmul(MIX as int, s), 1)
}

/// The four coordinates drawn by one extension-field sample.
pub open spec fn squeeze4(s: int) -> Seq<int> {
    seq![
        squeeze(s),
        squeeze(squeeze(s)),
        squeeze(squeeze(squeeze(s))),
        squeeze(squeeze(squeeze(squeeze(s)))),
    ]
}

/// The state after one extension-field sample.
pub open spec fn squeeze4_state(s: int) -> int {
    squeeze(squeeze(squeeze(squeeze(s))))
}

/// The state after `n` squeezes.
pub open spec fn squeeze_n(s: int, n: nat) -> int
    decreases n,
{
    if n == 0 {
        s
    } else {
        squeeze(squeeze_n(s, (n - 1) as nat))
    }
}

/// The witness that the proof-of-work grind solves for, as a function of
/// the state it is ground against.
pub open spec fn grind_witness_s(s: int) -> int {
    fsub(fmul(crate::field::finv(MIX as int), (crate::field::P - 1) as int), fmul(MIX as int, s))
}

/// The Fiat-Shamir transcript.
#[derive(Clone, PartialEq, Eq, Structural, Debug)]
pub struct Challenger {
    pub st: Fp,
}

impl Challenger {
    pub open spec fn wf(self) -> bool {
        self.st.wf()
    }

    pub fn new() -> (r: Challenger)
        ensures
            r.wf(),
            r.st@ == 0,
    {
        Challenger { st: Fp::zero() }
    }

    /// Absorbs one base-field value.
    pub fn observe(&mut self, x: Fp)
        requires
            old(self).wf(),
            x.wf(),
        ensures
            final(self).wf(),
            final(self).st@ == absorb(old(self).st@, x@),
    {
        let m = Fp::new(MIX);
        self.st = m.mul(self.st).add(x);
    }

    /// Absorbs the four coordinates of an extension value, in order.
    pub fn observe_ext(&mut self, x: Ext)
        requires
            old(self).wf(),
            x.wf(),
        ensures
            final(self).wf(),
            final(self).st@ == absorb_ext(old(self).st@, x@),
    {
        self.observe(x.c0);
        self.observe(x.c1);
        self.observe(x.c2);
        self.observe(x.c3);
    }

    /// Squeezes one base-field challenge.
    pub fn sample(&mut self) -> (r: Fp)
        requires
            old(self).wf(),
        ensures
            final(self).wf(),
            r.wf(),
            final(self).st@ == squeeze(old(self).st@),
            r@ == squeeze(old(self).st@),
    {
        let m = Fp::new(MIX);
        self.st = m.mul(self.st).add(Fp::one());
        self.st
    }

    /// Squeezes one extension-field challenge, coordinate by coordinate.
    pub fn sample_ext(&mut self) -> (r: Ext)
        requires
            old(self).wf(),
        ensures
            final(self).wf(),
            r.wf(),
            r@ == squeeze4(old(self).st@),
            final(self).st@ == squeeze4_state(old(self).st@),
    {
        let c0 = self.sample();
        let c1 = self.sample();
        let c2 = self.sample();
        let c3 = self.sample();
        let r = Ext::new(c0, c1, c2, c3);
        proof {
            assert(r@ =~= squeeze4(old(self).st@));
        }
        r
    }

    /// Squeezes an index of `bits` bits.
    pub fn sample_bits(&mut self, bits: usize) -> (r: usize)
        requires
            old(self).wf(),
            bits < 30,
        ensures
            final(self).wf(),
            final(self).st@ == squeeze(old(self).st@),
            r == squeeze(old(self).st@) % (pow2(bits as nat) as int),
            r < pow2(bits as nat),
    {
        let s = self.sample();
        let m = pow2_usize(bits);
        let r = (s.v as usize) % m;
        proof {
            lemma_mod_bound(s@, pow2(bits as nat) as int);
        }
        r
    }

    /// Finds and absorbs a proof-of-work witness: after absorbing it, the
    /// next `bits`-bit sample is zero. The witness is solved for directly;
    /// searching for it is a property of a cryptographic sponge only.
    pub fn grind(&mut self, bits: usize) -> (r: Fp)
        requires
            old(self).wf(),
            bits < 30,
        ensures
            final(self).wf(),
            r.wf(),
            r@ == grind_witness_s(old(self).st@),
            final(self).st@ == squeeze(absorb(old(self).st@, r@)),
            squeeze(absorb(old(self).st@, r@)) % (pow2(bits as nat) as int) == 0,
    {
        let ghost s0 = self.st@;
        let m = Fp::new(MIX);
        let minv = fp_inv(m);
        // Target intermediate state t with squeeze(t) == 0.
        let t = minv.mul(Fp::new(P - 1));
        let mixed = m.mul(self.st);
        let w = t.sub(mixed);
        proof {
            crate::field::lemma_finv_unique(MIX as int, minv@);
            lemma_grind_witness(s0, minv@, t@, w@);
        }
        self.observe(w);
        let _z = self.sample_bits(bits);
        proof {
            vstd::arithmetic::power2::lemma_pow2_pos(bits as nat);
            lemma_small_mod(0, pow2(bits as nat));
        }
        w
    }

    /// Replays a proof-of-work witness and reports whether it passes.
    pub fn check_witness(&mut self, bits: usize, w: Fp) -> (r: bool)
        requires
            old(self).wf(),
            w.wf(),
            bits < 30,
        ensures
            final(self).wf(),
            final(self).st@ == squeeze(absorb(old(self).st@, w@)),
            r <==> squeeze(absorb(old(self).st@, w@)) % (pow2(bits as nat) as int) == 0,
    {
        self.observe(w);
        let z = self.sample_bits(bits);
        z == 0
    }
}

/// The state after absorbing a sequence of base-field values, in order.
pub open spec fn absorb_seq(s: int, xs: Seq<int>) -> int
    decreases xs.len(),
{
    if xs.len() == 0 {
        s
    } else {
        absorb(absorb_seq(s, xs.drop_last()), xs.last())
    }
}

/// The state after absorbing a sequence of extension values, in order.
pub open spec fn absorb_ext_seq(s: int, es: Seq<Seq<int>>) -> int
    decreases es.len(),
{
    if es.len() == 0 {
        s
    } else {
        absorb_ext(absorb_ext_seq(s, es.drop_last()), es.last())
    }
}

impl Challenger {
    /// Absorbs every value of a slice, in order.
    pub fn observe_fp_slice(&mut self, xs: &Vec<Fp>)
        requires
            old(self).wf(),
            forall|i: int| 0 <= i < xs@.len() ==> (#[trigger] xs@[i]).wf(),
        ensures
            final(self).wf(),
            final(self).st@ == absorb_seq(old(self).st@, xs@.map_values(|x: Fp| x@)),
    {
        let ghost s0 = self.st@;
        let ghost view = xs@.map_values(|x: Fp| x@);
        let mut i: usize = 0;
        while i < xs.len()
            invariant
                self.wf(),
                i <= xs@.len(),
                view == xs@.map_values(|x: Fp| x@),
                forall|k: int| 0 <= k < xs@.len() ==> (#[trigger] xs@[k]).wf(),
                self.st@ == absorb_seq(s0, view.take(i as int)),
            decreases xs@.len() - i,
        {
            proof {
                assert(view.take(i + 1).drop_last() =~= view.take(i as int));
                assert(view.take(i + 1).last() == xs@[i as int]@);
            }
            self.observe(xs[i]);
            i = i + 1;
        }
        proof {
            assert(view.take(xs@.len() as int) =~= view);
        }
    }

    /// Absorbs every value of an extension slice, in order.
    pub fn observe_ext_slice(&mut self, es: &Vec<Ext>)
        requires
            old(self).wf(),
            forall|i: int| 0 <= i < es@.len() ==> (#[trigger] es@[i]).wf(),
        ensures
            final(self).wf(),
            final(self).st@ == absorb_ext_seq(old(self).st@, es@.map_values(|x: Ext| x@)),
    {
        let ghost s0 = self.st@;
        let ghost view = es@.map_values(|x: Ext| x@);
        let mut i: usize = 0;
        while i < es.len()
            invariant
                self.wf(),
                i <= es@.len(),
                view == es@.map_values(|x: Ext| x@),
                forall|k: int| 0 <= k < es@.len() ==> (#[trigger] es@[k]).wf(),
                self.st@ == absorb_ext_seq(s0, view.take(i as int)),
            decreases es@.len() - i,
        {
            proof {
                assert(view.take(i + 1).drop_last() =~= view.take(i as int));
                assert(view.take(i + 1).last() == es@[i as int]@);
            }
            self.observe_ext(es[i]);
            i = i + 1;
        }
        proof {
            assert(view.take(es@.len() as int) =~= view);
        }
    }
}

/// The solved witness drives the sponge to state zero.
proof fn lemma_grind_witness(s0: int, minv: int, t: int, w: int)
    requires
        0 <= s0 < pm(),
        0 <= minv < pm(),
        fmul(minv, MIX as int) == 1,
        t == fmul(minv, (P - 1) as int),
        w == (t - fmul(MIX as int, s0)) % pm(),
    ensures
        squeeze(absorb(s0, w)) == 0,
{
    let m = MIX as int;
    // absorb(s0, w) == t
    assert(absorb(s0, w) == t) by {
        lemma_add_mod_noop_right(fmul(m, s0), t - fmul(m, s0), pm());
        lemma_mod_bound(minv * (P - 1), pm());
        lemma_small_mod(t as nat, P as nat);
    };
    // m * t == P - 1 in the field
    assert(fmul(m, t) == (P - 1) as int) by {
        lemma_mul_mod_noop_general(m, minv * (P - 1), pm());
        lemma_mul_is_associative(m, minv, (P - 1) as int);
        lemma_mul_mod_noop_general(m * minv, (P - 1) as int, pm());
        vstd::arithmetic::mul::lemma_mul_is_commutative(m, minv);
        lemma_small_mod((P - 1) as nat, P as nat);
        lemma_small_mod(1, P as nat);
        lemma_mul_mod_noop_general(1, (P - 1) as int, pm());
    };
    assert(squeeze(t) == 0) by {
        lemma_mod_self_0(pm());
    };
}

} // verus!
