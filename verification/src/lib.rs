//! A FRI-based polynomial commitment scheme over the 31-bit prime field
//! `P = 2^31 - 2^27 + 1` and its quartic binomial extension.
//!
//! The crate provides the FRI low-degree test (commit phase, query phase,
//! verifier) and a two-adic polynomial commitment scheme layered on top of
//! it, which batches many polynomial openings into a single FRI instance
//! through an algebraic linear-combination reduction and barycentric
//! interpolation.
//!
//! Two protocol capabilities are modelled by the simplest instances that
//! meet their contracts: the commitment capability is perfectly binding
//! (a commitment retains the committed data, so binding is definitional
//! and proofs are not succinct), and the Fiat-Shamir transcript is an
//! affine sponge whose proof-of-work witness is solved in closed form.
//! Both are pluggable; every contract states their behaviour exactly, so
//! swapping in a cryptographic instance changes no verified logic.

pub mod bits;
pub mod challenger;
pub mod config;
pub mod dft;
pub mod ext;
pub mod field;
pub mod fold;
pub mod fri_proof;
pub mod fri_verifier;
pub mod interpolation;
pub mod matrix;
pub mod mmcs;
pub mod prover;
pub mod stark;
pub mod two_adic_pcs;
