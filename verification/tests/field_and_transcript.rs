//! Field arithmetic, inversion through the outside field crate, and the
//! transcript's proof-of-work cycle.

use fri_pcs::challenger::Challenger;
use fri_pcs::ext::Ext;
use fri_pcs::field::{Fp, GENERATOR, P};
use fri_pcs::stark::{log_quotient_degree, PublicRow};

#[test]
fn fp_arithmetic_known_values() {
    let a = Fp::new(P - 1);
    let b = Fp::new(2);
    assert_eq!(a.add(b), Fp::new(1));
    assert_eq!(b.sub(a), Fp::new(3));
    assert_eq!(a.mul(a), Fp::new(1));
    assert_eq!(Fp::new(5).pow_u64(3), Fp::new(125));
}

#[test]
fn fp_inverse_is_real() {
    for v in [1u32, 2, 31, 1234567, P - 1] {
        let a = Fp::new(v);
        let inv = a.inverse();
        assert_eq!(a.mul(inv), Fp::one());
        if v != 1 && v != P - 1 {
            // the inverse is not the argument handed back
            assert_ne!(inv, a);
        }
    }
    assert_eq!(Fp::zero().inverse(), Fp::zero());
}

#[test]
fn ext_inverse_is_real() {
    let a = Ext::new(Fp::new(3), Fp::new(7), Fp::new(11), Fp::new(19));
    let inv = fri_pcs::ext::ext_inv(a);
    assert_eq!(inv.mul(a), Ext::one());
    assert_ne!(inv, a);
    assert_eq!(fri_pcs::ext::ext_inv(Ext::zero()), Ext::zero());
}

#[test]
fn two_adic_generator_orders() {
    // the order-4 generator squares to the order-2 generator, which is -1
    let g2 = Fp::two_adic_generator(2);
    assert_eq!(g2.mul(g2), Fp::new(P - 1));
    let g1 = Fp::two_adic_generator(1);
    assert_eq!(g1.mul(g1), Fp::one());
    assert_eq!(Fp::new(GENERATOR), Fp::new(31));
}

#[test]
fn grind_witness_replays() {
    let mut prover = Challenger::new();
    prover.observe(Fp::new(42));
    let mut verifier = prover.clone();
    let w = prover.grind(8);
    assert!(verifier.check_witness(8, w));
    // both transcripts end in the same state
    let a = prover.sample();
    let b = verifier.sample();
    assert_eq!(a, b);
}

#[test]
fn public_row_is_one_row_everywhere() {
    let row = PublicRow(vec![Fp::new(1), Fp::new(2)]);
    assert_eq!(row.width(), 2);
    assert_eq!(row.height(), 1);
    assert_eq!(row.row(5), &vec![Fp::new(1), Fp::new(2)]);
    let pts = vec![Ext::from_base(Fp::new(7)), Ext::one()];
    let vals = row.interpolate(&pts);
    assert_eq!(vals.len(), 2);
    assert_eq!(vals[0][1], Ext::from_base(Fp::new(2)));
    assert_eq!(vals[1][0], Ext::from_base(Fp::new(1)));
}

#[test]
fn quotient_degree_rounding() {
    assert_eq!(log_quotient_degree(1), 0);
    assert_eq!(log_quotient_degree(3), 1);
    assert_eq!(log_quotient_degree(6), 3);
}

#[test]
fn transcript_is_deterministic() {
    let mut one = Challenger::new();
    let mut two = Challenger::new();
    for v in [3u32, 1, 4, 1, 5] {
        one.observe(Fp::new(v));
        two.observe(Fp::new(v));
    }
    assert_eq!(one.sample_ext(), two.sample_ext());
    assert_eq!(one.sample_bits(10), two.sample_bits(10));
}
