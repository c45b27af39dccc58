//! The proof objects that a FRI prover emits and a verifier consumes, and
//! the verifier's error type.

use vstd::prelude::*;
use crate::ext::Ext;
use crate::field::Fp;
use crate::mmcs::{RoundCommitment, RoundOpeningProof};

verus! {

/// One step of a query's walk down the fold rounds: the folding partner
/// that the verifier cannot derive itself, with its inclusion evidence.
#[derive(Clone, Debug)]
pub struct CommitPhaseProofStep {
    pub sibling_value: Ext,
    pub opening_proof: RoundOpeningProof,
}

/// The per-query evidence: one opened sibling per fold round.
#[derive(Clone, Debug)]
pub struct QueryProof {
    pub commit_phase_openings: Vec<CommitPhaseProofStep>,
}

/// A complete FRI proof: one commitment per fold round, one proof per
/// query, the fully folded polynomial's coefficients, and the
/// proof-of-work witness. Immutable once produced.
#[derive(Clone, Debug)]
pub struct FriProof {
    pub commit_phase_commits: Vec<RoundCommitment>,
    pub query_proofs: Vec<QueryProof>,
    pub final_poly: Vec<Ext>,
    pub pow_witness: Fp,
}

/// Why a proof was rejected. A failed verification is final.
#[derive(Clone, Copy, PartialEq, Eq, Structural, Debug)]
pub enum FriError {
    /// The proof's shape does not match the claimed height or the config.
    InvalidProofShape,
    /// The proof-of-work witness does not meet the required bits.
    InvalidPowWitness,
    /// An opened row was rejected against a fold-round commitment.
    CommitPhaseMmcsError,
    /// The folded value does not match the final polynomial.
    FinalPolyMismatch,
}

/// Why the prover refused to produce a proof: the caller broke its
/// contract.
#[derive(Clone, Copy, PartialEq, Eq, Structural, Debug)]
pub enum ProverError {
    /// The recovered final polynomial has a nonzero high-degree tail, so
    /// the inputs were not of the claimed degree.
    FinalPolyTailNonZero,
    /// The batch of openings is too large for the machine's counters.
    TooManyOpenings,
}

} // verus!
