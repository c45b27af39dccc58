//! The base field: integers modulo the prime `P = 2^31 - 2^27 + 1`, held in
//! canonical form, with verified modular arithmetic.

use vstd::prelude::*;
use vstd::arithmetic::div_mod::{
    lemma_mod_bound, lemma_mod_twice, lemma_mul_mod_noop_general, lemma_small_mod,
};
use vstd::arithmetic::mul::lemma_mul_is_associative;
use vstd::arithmetic::power::{lemma_pow_adds, lemma_pow_mod_noop, lemma_pow_multiplies, pow};

verus! {

/// The field's prime modulus.
pub const P: u32 = 0x78000001;

/// A generator of the field's whole multiplicative group.
pub const GENERATOR: u32 = 31;

/// The modulus as a spec-level integer.
pub open spec fn pm() -> int {
    P as int
}

/// Sum in the field, on canonical representatives.
pub open spec fn fadd(a: int, b: int) -> int {
    (a + b) % pm()
}

/// Difference in the field, on canonical representatives.
pub open spec fn fsub(a: int, b: int) -> int {
    (a - b) % pm()
}

/// Product in the field, on canonical representatives.
pub open spec fn fmul(a: int, b: int) -> int {
    (a * b) % pm()
}

/// Additive inverse in the field, on canonical representatives.
pub open spec fn fneg(a: int) -> int {
    (pm() - a) % pm()
}

/// `a` raised to the `e`-th power in the field.
pub open spec fn fpow(a: int, e: nat) -> int {
    pow(a, e) % pm()
}

/// The multiplicative inverse of `a` in the field, when one exists.
pub open spec fn finv(a: int) -> int {
    choose|r: int| 0 <= r < pm() && fmul(r, a) == 1
}

/// An element of the base field, held as its canonical representative.
#[derive(Clone, Copy, PartialEq, Eq, Structural, Hash, Debug)]
pub struct Fp {
    pub v: u32,
}

impl View for Fp {
    type V = int;

    open spec fn view(&self) -> int {
        self.v as int
    }
}

impl Fp {
    /// The representative is reduced.
    pub open spec fn wf(self) -> bool {
        self.v < P
    }

    pub fn new(v: u32) -> (r: Fp)
        requires
            v < P,
        ensures
            r.wf(),
            r@ == v as int,
    {
        Fp { v }
    }

    /// Reduces an arbitrary machine word into the field.
    pub fn from_u64(v: u64) -> (r: Fp)
        ensures
            r.wf(),
            r@ == v as int % pm(),
    {
        Fp { v: (v % (P as u64)) as u32 }
    }

    pub fn zero() -> (r: Fp)
        ensures
            r.wf(),
            r@ == 0,
    {
        Fp { v: 0 }
    }

    pub fn one() -> (r: Fp)
        ensures
            r.wf(),
            r@ == 1,
    {
        Fp { v: 1 }
    }

    pub fn is_zero(self) -> (r: bool)
        requires
            self.wf(),
        ensures
            r <==> self@ == 0,
    {
        self.v == 0
    }

    pub fn add(self, other: Fp) -> (r: Fp)
        requires
            self.wf(),
            other.wf(),
        ensures
            r.wf(),
            r@ == fadd(self@, other@),
    {
        let s = self.v + other.v;
        let r = if s >= P {
            s - P
        } else {
            s
        };
        proof {
            if s >= P {
                assert((pm() + (s - P)) % pm() == (s - P) % pm()) by {
                    vstd::arithmetic::div_mod::lemma_mod_add_multiples_vanish(
                        s as int - P as int,
                        pm(),
                    );
                };
                lemma_small_mod((s - P) as nat, P as nat);
            } else {
                lemma_small_mod(s as nat, P as nat);
            }
        }
        Fp { v: r }
    }

    pub fn sub(self, other: Fp) -> (r: Fp)
        requires
            self.wf(),
            other.wf(),
        ensures
            r.wf(),
            r@ == fsub(self@, other@),
    {
        let s = self.v + P - other.v;
        let r = if s >= P {
            s - P
        } else {
            s
        };
        proof {
            if s >= P {
                assert((self@ - other@) % pm() == (s - P) % pm()) by {
                    lemma_small_mod((s - P) as nat, P as nat);
                };
            } else {
                assert((pm() + (self@ - other@)) % pm() == (self@ - other@) % pm()) by {
                    vstd::arithmetic::div_mod::lemma_mod_add_multiples_vanish(
                        self@ - other@,
                        pm(),
                    );
                };
                lemma_small_mod(s as nat, P as nat);
            }
        }
        Fp { v: r }
    }

    pub fn neg(self) -> (r: Fp)
        requires
            self.wf(),
        ensures
            r.wf(),
            r@ == fneg(self@),
    {
        let r = if self.v == 0 {
            0
        } else {
            P - self.v
        };
        proof {
            if self.v == 0 {
                assert(pm() % pm() == 0) by {
                    vstd::arithmetic::div_mod::lemma_mod_self_0(pm());
                };
            } else {
                lemma_small_mod((P - self.v) as nat, P as nat);
            }
        }
        Fp { v: r }
    }

    pub fn mul(self, other: Fp) -> (r: Fp)
        requires
            self.wf(),
            other.wf(),
        ensures
            r.wf(),
            r@ == fmul(self@, other@),
    {
        proof {
            assert(self@ * other@ < 0x8000_0000_0000_0000) by {
                vstd::arithmetic::mul::lemma_mul_upper_bound(
                    self@,
                    0x8000_0000 - 1,
                    other@,
                    0x8000_0000 - 1,
                );
            };
        }
        let prod: u64 = (self.v as u64) * (other.v as u64);
        let r = (prod % (P as u64)) as u32;
        Fp { v: r }
    }

    /// Square-and-multiply exponentiation.
    pub fn pow_u64(self, e: u64) -> (r: Fp)
        requires
            self.wf(),
        ensures
            r.wf(),
            r@ == fpow(self@, e as nat),
    {
        let mut base = self;
        let mut exp = e;
        let mut acc = Fp::one();
        proof {
            lemma_small_mod(1, P as nat);
            lemma_mod_twice(pow(self@, e as nat), pm());
        }
        while exp > 0
            invariant
                base.wf(),
                acc.wf(),
                fmul(acc@, fpow(base@, exp as nat)) == fpow(self@, e as nat),
            decreases exp,
        {
            if exp % 2 == 1 {
                proof {
                    lemma_fpow_square_step(acc@, base@, exp as nat);
                }
                acc = acc.mul(base);
            } else {
                proof {
                    lemma_fpow_square_step_even(acc@, base@, exp as nat);
                }
            }
            base = base.mul(base);
            exp = exp / 2;
        }
        proof {
            assert(pow(base@, 0) == 1) by {
                vstd::arithmetic::power::lemma_pow0(base@);
            };
            lemma_small_mod(1, P as nat);
            lemma_mul_mod_noop_general(acc@, 1, pm());
            lemma_small_mod(acc.v as nat, P as nat);
        }
        acc
    }
}

/// `acc * b^e == acc' * (b*b)^(e/2)` in the field, for odd `e`, where
/// `acc' = acc * b`.
proof fn lemma_fpow_square_step(acc: int, b: int, e: nat)
    requires
        e % 2 == 1,
    ensures
        fmul(fmul(acc, b), fpow(fmul(b, b), (e / 2) as nat)) == fmul(acc, fpow(b, e)),
{
    lemma_fpow_halves(b, e);
    // fpow(b, e) == fmul(b, fpow(fmul(b, b), e / 2))
    let h = fpow(fmul(b, b), (e / 2) as nat);
    lemma_mod_bound(pow(fmul(b, b), (e / 2) as nat), pm());
    lemma_mul_mod_noop_general(acc * b, h, pm());
    lemma_mul_mod_noop_general(acc, b, pm());
    lemma_mul_is_associative(acc, b, h);
    lemma_mul_mod_noop_general(acc, b * h, pm());
    lemma_mul_mod_noop_general(b, h, pm());
}

/// `acc * b^e == acc * (b*b)^(e/2)` in the field, for even `e`.
proof fn lemma_fpow_square_step_even(acc: int, b: int, e: nat)
    requires
        e % 2 == 0,
    ensures
        fmul(acc, fpow(fmul(b, b), (e / 2) as nat)) == fmul(acc, fpow(b, e)),
{
    lemma_fpow_halves(b, e);
}

/// Relates `b^e` to powers of `b*b`.
proof fn lemma_fpow_halves(b: int, e: nat)
    ensures
        e % 2 == 0 ==> fpow(fmul(b, b), (e / 2) as nat) == fpow(b, e),
        e % 2 == 1 ==> fmul(b, fpow(fmul(b, b), (e / 2) as nat)) == fpow(b, e),
{
    let k = (e / 2) as nat;
    assert(pow(b, 2) == b * b) by {
        vstd::arithmetic::power::lemma_square_is_pow2(b);
    };
    lemma_pow_multiplies(b, 2, k);
    // pow(b, 2*k) == pow(b*b, k)
    lemma_pow_mod_noop(b * b, k, pm());
    // pow((b*b) % pm(), k) % pm() == pow(b*b, k) % pm()
    if e % 2 == 0 {
        assert(2 * k == e);
    } else {
        assert(2 * k + 1 == e);
        lemma_pow_adds(b, 1, 2 * k);
        assert(pow(b, 1) == b) by {
            vstd::arithmetic::power::lemma_pow1(b);
        };
        // pow(b, e) == b * pow(b, 2*k)
        lemma_mod_bound(pow(b * b, k), pm());
        lemma_mul_mod_noop_general(b, pow(b * b, k), pm());
    }
}

/// `finv` of zero is left unconstrained; this total version, which the
/// executable inversion matches exactly, sends zero to zero.
pub open spec fn finv0(a: int) -> int {
    if a == 0 {
        0
    } else {
        finv(a)
    }
}

/// The canonical generator of the multiplicative subgroup of order
/// `2^bits`, for `bits` up to the field's two-adicity of 27. The values are
/// the standard two-adic generator table of this prime field.
pub open spec fn two_adic_gen(bits: nat) -> int {
    if bits == 0 {
        0x1
    } else if bits == 1 {
        0x78000000
    } else if bits == 2 {
        0x67055c21
    } else if bits == 3 {
        0x5ee99486
    } else if bits == 4 {
        0xbb4c4e4
    } else if bits == 5 {
        0x2d4cc4da
    } else if bits == 6 {
        0x669d6090
    } else if bits == 7 {
        0x17b56c64
    } else if bits == 8 {
        0x67456167
    } else if bits == 9 {
        0x688442f9
    } else if bits == 10 {
        0x145e952d
    } else if bits == 11 {
        0x4fe61226
    } else if bits == 12 {
        0x4c734715
    } else if bits == 13 {
        0x11c33e2a
    } else if bits == 14 {
        0x62c3d2b1
    } else if bits == 15 {
        0x77cad399
    } else if bits == 16 {
        0x54c131f4
    } else if bits == 17 {
        0x4cabd6a6
    } else if bits == 18 {
        0x5cf5713f
    } else if bits == 19 {
        0x3e9430e8
    } else if bits == 20 {
        0xba067a3
    } else if bits == 21 {
        0x18adc27d
    } else if bits == 22 {
        0x21fd55bc
    } else if bits == 23 {
        0x4b859b3d
    } else if bits == 24 {
        0x3bd57996
    } else if bits == 25 {
        0x4483d85a
    } else if bits == 26 {
        0x3a26eef8
    } else {
        0x1a427a41
    }
}

impl Fp {
    /// The canonical generator of the order-`2^bits` subgroup.
    pub fn two_adic_generator(bits: usize) -> (r: Fp)
        requires
            bits <= 27,
        ensures
            r.wf(),
            r@ == two_adic_gen(bits as nat),
    {
        if bits == 0 {
            Fp::new(0x1)
        } else if bits == 1 {
            Fp::new(0x78000000)
        } else if bits == 2 {
            Fp::new(0x67055c21)
        } else if bits == 3 {
            Fp::new(0x5ee99486)
        } else if bits == 4 {
            Fp::new(0xbb4c4e4)
        } else if bits == 5 {
            Fp::new(0x2d4cc4da)
        } else if bits == 6 {
            Fp::new(0x669d6090)
        } else if bits == 7 {
            Fp::new(0x17b56c64)
        } else if bits == 8 {
            Fp::new(0x67456167)
        } else if bits == 9 {
            Fp::new(0x688442f9)
        } else if bits == 10 {
            Fp::new(0x145e952d)
        } else if bits == 11 {
            Fp::new(0x4fe61226)
        } else if bits == 12 {
            Fp::new(0x4c734715)
        } else if bits == 13 {
            Fp::new(0x11c33e2a)
        } else if bits == 14 {
            Fp::new(0x62c3d2b1)
        } else if bits == 15 {
            Fp::new(0x77cad399)
        } else if bits == 16 {
            Fp::new(0x54c131f4)
        } else if bits == 17 {
            Fp::new(0x4cabd6a6)
        } else if bits == 18 {
            Fp::new(0x5cf5713f)
        } else if bits == 19 {
            Fp::new(0x3e9430e8)
        } else if bits == 20 {
            Fp::new(0xba067a3)
        } else if bits == 21 {
            Fp::new(0x18adc27d)
        } else if bits == 22 {
            Fp::new(0x21fd55bc)
        } else if bits == 23 {
            Fp::new(0x4b859b3d)
        } else if bits == 24 {
            Fp::new(0x3bd57996)
        } else if bits == 25 {
            Fp::new(0x4483d85a)
        } else if bits == 26 {
            Fp::new(0x3a26eef8)
        } else {
            Fp::new(0x1a427a41)
        }
    }

    /// The multiplicative inverse, with zero sent to zero.
    pub fn inverse(self) -> (r: Fp)
        requires
            self.wf(),
        ensures
            r.wf(),
            r@ == finv0(self@),
            self@ != 0 ==> fmul(r@, self@) == 1,
    {
        let r = fp_inv(self);
        proof {
            if self@ != 0 {
                lemma_finv_unique(self@, r@);
            }
        }
        r
    }
}

/// Any reduced `r` with `r * a == 1` in the field is `finv(a)`.
pub proof fn lemma_finv_unique(a: int, r: int)
    requires
        0 <= r < pm(),
        fmul(r, a) == 1,
    ensures
        r == finv(a),
{
    let r2 = finv(a);
    assert(0 <= r2 < pm() && fmul(r2, a) == 1);
    // r == r * (r2 * a) == (r * a) * r2 == r2, all in the field.
    lemma_mul_mod_noop_general(r, r2 * a, pm());
    lemma_mul_is_associative(r, r2, a);
    lemma_mul_is_associative(r, a, r2);
    assert(r * (r2 * a) == (r * a) * r2) by {
        vstd::arithmetic::mul::lemma_mul_is_commutative(r2, a);
        lemma_mul_is_associative(r, a, r2);
    };
    lemma_mul_mod_noop_general(r * a, r2, pm());
    lemma_small_mod(r as nat, P as nat);
    lemma_small_mod(r2 as nat, P as nat);
    lemma_small_mod(1, P as nat);
}

/// Relies on `p3_field::Field::try_inverse` for `p3_baby_bear::BabyBear`
/// (the same prime field): for a nonzero element it returns `Some` of the
/// multiplicative inverse, for zero it returns `None`, and
/// `as_canonical_u32` returns a value below `P`. Zero is mapped to zero
/// here, so the function is total and callers never divide by panicking.
#[verifier::external_body]
pub fn fp_inv(a: Fp) -> (r: Fp)
    requires
        a.wf(),
    ensures
        r.wf(),
        a@ != 0 ==> fmul(r@, a@) == 1,
        a@ == 0 ==> r@ == 0,
{
    let x = p3_baby_bear::BabyBear::new(a.v);
    match p3_field::Field::try_inverse(&x) {
        Some(inv) => Fp { v: p3_field::PrimeField32::as_canonical_u32(&inv) },
        None => Fp { v: 0 },
    }
}

} // verus!
