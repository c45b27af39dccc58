//! End-to-end batched opening: commit, open at several points, verify;
//! and rejection when any single piece of the proof is corrupted.

use fri_pcs::challenger::Challenger;
use fri_pcs::config::FriConfig;
use fri_pcs::ext::Ext;
use fri_pcs::field::Fp;
use fri_pcs::fri_proof::FriError;
use fri_pcs::matrix::FpMat;
use fri_pcs::mmcs::{BatchCommitment, Dims};
use fri_pcs::two_adic_pcs::{TwoAdicFriPcs, TwoAdicFriPcsProof, VerificationError};

fn config() -> FriConfig {
    FriConfig {
        log_blowup: 1,
        log_final_poly_len: 0,
        num_queries: 4,
        proof_of_work_bits: 2,
    }
}

fn eval_poly_fp(coeffs: &[u32], x: Fp) -> Fp {
    let mut acc = Fp::zero();
    for &c in coeffs.iter().rev() {
        acc = acc.mul(x).add(Fp::new(c));
    }
    acc
}

fn eval_poly_ext(coeffs: &[u32], x: Ext) -> Ext {
    let mut acc = Ext::zero();
    for &c in coeffs.iter().rev() {
        acc = acc.mul(x).add(Ext::from_base(Fp::new(c)));
    }
    acc
}

/// Each column holds the evaluations of one polynomial over the
/// canonical subgroup, in natural order.
fn poly_matrix(coeff_cols: &[Vec<u32>], log_h: usize) -> FpMat {
    let h = 1usize << log_h;
    let g = Fp::two_adic_generator(log_h);
    let width = coeff_cols.len();
    let mut values = Vec::new();
    let mut x = Fp::one();
    for _i in 0..h {
        for col in coeff_cols {
            values.push(eval_poly_fp(col, x));
        }
        x = x.mul(g);
    }
    FpMat::new(values, width)
}

fn observe_commitment(ch: &mut Challenger, c: &BatchCommitment) {
    for m in &c.mats {
        ch.observe_fp_slice(&m.values);
    }
}

struct Setup {
    pcs: TwoAdicFriPcs,
    commitment: BatchCommitment,
    points: Vec<Vec<Vec<Ext>>>,
    dims: Vec<Vec<Dims>>,
    vals: Vec<Vec<Vec<Vec<Ext>>>>,
    proof: TwoAdicFriPcsProof,
}

fn run_open() -> Setup {
    let pcs = TwoAdicFriPcs::new(config());
    let m0 = poly_matrix(&[vec![3, 2, 1], vec![5, 0, 7, 11]], 3);
    let m1 = poly_matrix(&[vec![9, 4]], 2);
    let (commitment, data) = pcs.commit_batches(&vec![m0, m1]);
    let z1 = Ext::from_base(Fp::new(100));
    let z2 = Ext::new(Fp::new(2), Fp::new(3), Fp::new(5), Fp::new(7));
    let points = vec![vec![vec![z1, z2], vec![z1]]];
    let mut ch = Challenger::new();
    observe_commitment(&mut ch, &commitment);
    let (vals, proof, _idxs) = pcs
        .open_multi_batches(&vec![data], &points, &mut ch)
        .expect("opening a well-formed batch succeeds");
    let dims = vec![vec![
        Dims { width: 2, height: 16 },
        Dims { width: 1, height: 8 },
    ]];
    Setup { pcs, commitment, points, dims, vals, proof }
}

fn verify(s: &Setup, proof: &TwoAdicFriPcsProof) -> Result<(), VerificationError> {
    let mut ch = Challenger::new();
    observe_commitment(&mut ch, &s.commitment);
    let (res, _) = s.pcs.verify_multi_batches(
        &vec![s.commitment.clone()],
        &s.points,
        &s.dims,
        &s.vals,
        proof,
        &mut ch,
    );
    res
}

#[test]
fn pcs_roundtrip_accepts() {
    let s = run_open();
    assert!(verify(&s, &s.proof).is_ok());
}

#[test]
fn opened_values_are_the_polynomial_evaluations() {
    let s = run_open();
    let z1 = Ext::from_base(Fp::new(100));
    let z2 = Ext::new(Fp::new(2), Fp::new(3), Fp::new(5), Fp::new(7));
    assert_eq!(s.vals[0][0][0][0], eval_poly_ext(&[3, 2, 1], z1));
    assert_eq!(s.vals[0][0][0][1], eval_poly_ext(&[5, 0, 7, 11], z1));
    assert_eq!(s.vals[0][0][1][0], eval_poly_ext(&[3, 2, 1], z2));
    assert_eq!(s.vals[0][1][0][0], eval_poly_ext(&[9, 4], z1));
}

#[test]
fn final_poly_tail_is_zero() {
    let s = run_open();
    let fp_len = s.proof.fri_proof.final_poly.len();
    assert_eq!(fp_len, 2);
    assert_eq!(s.proof.fri_proof.final_poly[1], Ext::zero());
}

#[test]
fn proofs_are_deterministic() {
    let a = run_open();
    let b = run_open();
    assert_eq!(a.vals, b.vals);
    assert_eq!(format!("{:?}", a.proof), format!("{:?}", b.proof));
}

#[test]
fn corrupt_opened_value_is_rejected() {
    let s = run_open();
    let mut bad = s.proof.clone();
    let v = bad.query_openings[0][0].opened_values[0][0];
    bad.query_openings[0][0].opened_values[0][0] = v.add(Fp::one());
    match verify(&s, &bad) {
        Err(VerificationError::InputMmcsError) => {},
        other => panic!("expected an input commitment rejection, got {:?}", other),
    }
}

#[test]
fn corrupt_sibling_value_is_rejected() {
    let s = run_open();
    let mut bad = s.proof.clone();
    let old = bad.fri_proof.query_proofs[0].commit_phase_openings[0].sibling_value;
    bad.fri_proof.query_proofs[0].commit_phase_openings[0].sibling_value =
        old.add(Ext::one());
    assert!(verify(&s, &bad).is_err());
}

#[test]
fn corrupt_fold_commitment_is_rejected() {
    let s = run_open();
    let mut bad = s.proof.clone();
    let old = bad.fri_proof.commit_phase_commits[0].word[0];
    bad.fri_proof.commit_phase_commits[0].word[0] = old.add(Ext::one());
    assert!(verify(&s, &bad).is_err());
}

#[test]
fn corrupt_pow_witness_is_rejected() {
    let s = run_open();
    let mut bad = s.proof.clone();
    bad.fri_proof.pow_witness = bad.fri_proof.pow_witness.add(Fp::one());
    match verify(&s, &bad) {
        Err(VerificationError::FriError(FriError::InvalidPowWitness)) => {},
        other => panic!("expected a proof-of-work rejection, got {:?}", other),
    }
}

#[test]
fn wrong_proof_shape_is_rejected() {
    let s = run_open();
    let mut bad = s.proof.clone();
    bad.fri_proof.query_proofs.pop();
    match verify(&s, &bad) {
        Err(VerificationError::FriError(FriError::InvalidProofShape)) => {},
        other => panic!("expected a shape rejection, got {:?}", other),
    }
}

#[test]
fn wrong_claimed_value_is_rejected() {
    let mut s = run_open();
    let old = s.vals[0][0][0][0];
    s.vals[0][0][0][0] = old.add(Ext::one());
    let proof = s.proof.clone();
    assert!(verify(&s, &proof).is_err());
}

#[test]
fn corrupt_final_poly_is_rejected() {
    let s = run_open();
    let mut bad = s.proof.clone();
    let old = bad.fri_proof.final_poly[0];
    bad.fri_proof.final_poly[0] = old.add(Ext::one());
    assert!(verify(&s, &bad).is_err());
}
