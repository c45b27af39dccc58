//! Barycentric interpolation recovers a known low-degree polynomial.

use fri_pcs::ext::Ext;
use fri_pcs::field::{Fp, GENERATOR};
use fri_pcs::interpolation::{interpolate_coset, interpolate_subgroup};
use fri_pcs::matrix::FpMat;

fn mat_from(values: &[u32], width: usize) -> FpMat {
    let v: Vec<Fp> = values.iter().map(|&x| Fp::new(x)).collect();
    FpMat::new(v, width)
}

#[test]
fn test_interpolate_subgroup() {
    // x^2 + 2 x + 3
    let evals = [
        6, 886605102, 1443543107, 708307799, 2, 556938009, 569722818, 1874680944,
    ];
    let evals_mat = mat_from(&evals, 1);
    let point = Ext::from_base(Fp::new(100));
    let result = interpolate_subgroup(&evals_mat, point);
    assert_eq!(result.len(), 1);
    assert_eq!(result[0], Ext::from_base(Fp::new(10203)));
}

#[test]
fn interpolate_at_a_domain_point_returns_the_stored_row() {
    // x^2 + 2 x + 3 on the canonical subgroup of order 8; asking for the
    // value at a subgroup point hands back the table entry.
    let evals = [
        6, 886605102, 1443543107, 708307799, 2, 556938009, 569722818, 1874680944,
    ];
    let evals_mat = mat_from(&evals, 1);
    let g = Fp::two_adic_generator(3);
    let point = Ext::from_base(g.mul(g).mul(g));
    let result = interpolate_subgroup(&evals_mat, point);
    assert_eq!(result[0], Ext::from_base(Fp::new(708307799)));
}

#[test]
fn test_interpolate_coset() {
    // x^2 + 2 x + 3
    let shift = Fp::new(GENERATOR);
    let evals = [
        1026, 129027310, 457985035, 994890337, 902, 1988942953, 1555278970, 913671254,
    ];
    let evals_mat = mat_from(&evals, 1);
    let point = Ext::from_base(Fp::new(100));
    let result = interpolate_coset(&evals_mat, shift, point);
    assert_eq!(result.len(), 1);
    assert_eq!(result[0], Ext::from_base(Fp::new(10203)));
}
