//! Powers of two, base-two logarithms and bit-reversal of indices, as used
//! by the two-adic folding structure.

use vstd::prelude::*;
use vstd::arithmetic::power2::{
    lemma2_to64, lemma2_to64_rest, lemma_pow2_pos, lemma_pow2_strictly_increases,
    lemma_pow2_unfold, pow2,
};

verus! {

/// The low `bits` bits of `i`, in reversed order.
pub open spec fn rev_bits(i: nat, bits: nat) -> nat
    decreases bits,
{
    if bits == 0 {
        0
    } else {
        rev_bits(i / 2, (bits - 1) as nat) + (i % 2) * pow2((bits - 1) as nat)
    }
}

/// A reversed index stays below the same power of two.
pub proof fn lemma_rev_bits_bound(i: nat, bits: nat)
    ensures
        rev_bits(i, bits) < pow2(bits),
    decreases bits,
{
    lemma_pow2_pos(bits);
    if bits > 0 {
        lemma_rev_bits_bound(i / 2, (bits - 1) as nat);
        lemma_pow2_unfold(bits);
        assert((i % 2) * pow2((bits - 1) as nat) <= pow2((bits - 1) as nat)) by {
            if i % 2 == 0 {
                assert((i % 2) * pow2((bits - 1) as nat) == 0);
            } else {
                assert(i % 2 == 1);
            }
        };
    }
}

/// `pow2(e)` fits comfortably in a machine word for `e <= 29`.
proof fn lemma_pow2_word(e: nat)
    requires
        e <= 29,
    ensures
        pow2(e) <= 0x2000_0000,
{
    if e < 29 {
        lemma_pow2_strictly_increases(e, 29);
    }
    assert(pow2(29) == 0x2000_0000) by {
        lemma2_to64();
        lemma2_to64_rest();
    };
}

/// `2^k`, as a machine integer.
pub fn pow2_usize(k: usize) -> (r: usize)
    requires
        k < 30,
    ensures
        r == pow2(k as nat),
        r >= 1,
{
    let mut r: usize = 1;
    let mut j: usize = 0;
    proof {
        assert(pow2(0) == 1) by {
            lemma2_to64();
        };
    }
    while j < k
        invariant
            j <= k,
            k < 30,
            r == pow2(j as nat),
        decreases k - j,
    {
        proof {
            lemma_pow2_unfold((j + 1) as nat);
            lemma_pow2_word((j + 1) as nat);
        }
        r = r * 2;
        j = j + 1;
    }
    proof {
        lemma_pow2_pos(k as nat);
    }
    r
}

/// The base-two logarithm of a power of two.
pub fn log2_strict(n: usize, Ghost(k0): Ghost<nat>) -> (r: usize)
    requires
        n == pow2(k0),
        k0 < 30,
    ensures
        r == k0,
        n >= 1,
{
    let mut m = n;
    let mut k: usize = 0;
    proof {
        lemma_pow2_pos(k0);
    }
    while m > 1
        invariant
            k <= k0,
            m == pow2((k0 - k) as nat),
            k0 < 30,
        decreases m,
    {
        proof {
            lemma_pow2_pos((k0 - k) as nat);
            if k0 - k == 0 {
                assert(pow2(0) == 1) by {
                    lemma2_to64();
                };
            }
            lemma_pow2_unfold((k0 - k) as nat);
        }
        m = m / 2;
        k = k + 1;
    }
    proof {
        if k < k0 {
            lemma_pow2_strictly_increases(0, (k0 - k) as nat);
            assert(pow2(0) == 1) by {
                lemma2_to64();
            };
        }
        lemma_pow2_pos(k0);
    }
    k
}

/// Reverses the low `bits` bits of `i`.
pub fn reverse_bits_len(i: usize, bits: usize) -> (r: usize)
    requires
        bits < 30,
    ensures
        r == rev_bits(i as nat, bits as nat),
        r < pow2(bits as nat),
{
    let mut x = i;
    let mut r: usize = 0;
    let mut j: usize = 0;
    proof {
        assert(pow2(0) == 1) by {
            lemma2_to64();
        };
    }
    while j < bits
        invariant
            j <= bits,
            bits < 30,
            r < pow2(j as nat),
            rev_bits(i as nat, bits as nat) == r * pow2((bits - j) as nat) + rev_bits(
                x as nat,
                (bits - j) as nat,
            ),
        decreases bits - j,
    {
        proof {
            lemma_pow2_unfold((bits - j) as nat);
            lemma_pow2_unfold((j + 1) as nat);
            lemma_pow2_word((j + 1) as nat);
            assert((2 * r + x as nat % 2) * pow2((bits - j - 1) as nat) == 2 * r * pow2(
                (bits - j - 1) as nat,
            ) + (x as nat % 2) * pow2((bits - j - 1) as nat)) by {
                vstd::arithmetic::mul::lemma_mul_is_distributive_add_other_way(
                    pow2((bits - j - 1) as nat) as int,
                    2 * r as int,
                    x as int % 2,
                );
            };
            assert(2 * r * pow2((bits - j - 1) as nat) == r * pow2((bits - j) as nat)) by {
                vstd::arithmetic::mul::lemma_mul_is_associative(
                    r as int,
                    2,
                    pow2((bits - j - 1) as nat) as int,
                );
            };
        }
        r = 2 * r + x % 2;
        x = x / 2;
        j = j + 1;
    }
    proof {
        assert(pow2(0) == 1) by {
            lemma2_to64();
        };
        assert(j == bits);
        assert(rev_bits(x as nat, (bits - j) as nat) == 0);
        assert(rev_bits(i as nat, bits as nat) == r * 1 + 0);
    }
    r
}

} // verus!
