//! The FRI verifier. It replays the prover's transcript order exactly:
//! observe each fold-round commitment, draw the same folding challenges,
//! observe the final polynomial, check the proof-of-work witness, resample
//! the same query indices; then, for every query, refold the claimed
//! values across the rounds against the opened siblings and compare the
//! result with the final polynomial. Any mismatch is a terminal reject.

use vstd::prelude::*;
use vstd::arithmetic::power2::{lemma_pow2_adds, lemma_pow2_pos, lemma_pow2_unfold, pow2};
use crate::bits::{pow2_usize, rev_bits, reverse_bits_len};
use crate::challenger::{
    absorb, absorb_ext_seq, squeeze, squeeze4, squeeze4_state, squeeze_n, Challenger,
};
use crate::config::FriConfig;
use crate::ext::{eadd, efrom, epoly_eval, eval_poly, views_of, Ext};
use crate::field::{fpow, two_adic_gen, Fp};
use crate::fold::{fold_row, fold_row_s};
use crate::fri_proof::{CommitPhaseProofStep, FriError, FriProof};
use crate::mmcs::{round_verify, wf_ext_seq, RoundCommitment};

verus! {

/// The challenges a verifier derives from the transcript before checking
/// any query: one folding challenge per round, and the query indices.
pub struct FriChallenges {
    pub query_indices: Vec<usize>,
    pub betas: Vec<Ext>,
}

/// Every field value carried by a proof is in canonical form. A proof
/// read from the wire establishes this at deserialization.
pub open spec fn wf_fri_proof(p: FriProof) -> bool {
    &&& forall|i: int|
        0 <= i < p.commit_phase_commits@.len() ==> wf_ext_seq(
            (#[trigger] p.commit_phase_commits@[i]).word@,
        )
    &&& forall|q: int, i: int|
        0 <= q < p.query_proofs@.len() && 0 <= i
            < p.query_proofs@[q].commit_phase_openings@.len()
            ==> (#[trigger] p.query_proofs@[q].commit_phase_openings@[i]).sibling_value.wf()
    &&& wf_ext_seq(p.final_poly@)
    &&& p.pow_witness.wf()
}

/// The views of a list of fold-round commitments.
pub open spec fn commit_views(commits: Seq<RoundCommitment>) -> Seq<Seq<Seq<int>>> {
    Seq::new(commits.len(), |i: int| views_of(commits[i].word@))
}

/// The transcript state after the first `i` round commitments have been
/// absorbed, one folding challenge drawn after each.
pub open spec fn obs_rounds_state(words: Seq<Seq<Seq<int>>>, s0: int, i: nat) -> int
    decreases i,
{
    if i == 0 {
        s0
    } else {
        squeeze4_state(absorb_ext_seq(obs_rounds_state(words, s0, (i - 1) as nat), words[i - 1]))
    }
}

/// The verifier's transcript state once a proof's commitments and final
/// polynomial have been replayed, before the proof-of-work check.
pub open spec fn replay_pre_pow_state(proof: FriProof, s0: int) -> int {
    absorb_ext_seq(
        obs_rounds_state(
            commit_views(proof.commit_phase_commits@),
            s0,
            proof.commit_phase_commits@.len() as nat,
        ),
        views_of(proof.final_poly@),
    )
}

/// The proof's shape fits the config and the field's two-adicity.
pub open spec fn proof_shape_ok(config: FriConfig, proof: FriProof) -> bool {
    &&& proof.query_proofs@.len() == config.num_queries
    &&& proof.commit_phase_commits@.len() + config.log_blowup + config.log_final_poly_len <= 27
}

/// The proof-of-work witness passes against the replayed state.
pub open spec fn pow_ok(config: FriConfig, proof: FriProof, s0: int) -> bool {
    squeeze(absorb(replay_pre_pow_state(proof, s0), proof.pow_witness@)) % (
    pow2(config.proof_of_work_bits as nat) as int) == 0
}

/// The evaluation entering a fold as the even-position value.
pub open spec fn round_e0(prev: Seq<int>, sibling: Seq<int>, idx: int) -> Seq<int> {
    if idx % 2 == 0 {
        prev
    } else {
        sibling
    }
}

/// The evaluation entering a fold as the odd-position value.
pub open spec fn round_e1(prev: Seq<int>, sibling: Seq<int>, idx: int) -> Seq<int> {
    if idx % 2 == 0 {
        sibling
    } else {
        prev
    }
}

/// The verifier's running value for one query after `i` fold rounds: the
/// reduced opening at the full height, then one fold per round against
/// the recorded sibling, with the reduced opening of each intermediate
/// height mixed in as the prover did.
pub open spec fn folded_after(
    betas: Seq<Seq<int>>,
    steps: Seq<CommitPhaseProofStep>,
    index: int,
    ro: Seq<Seq<int>>,
    log_max: nat,
    i: nat,
) -> Seq<int>
    decreases i,
{
    if i == 0 {
        ro[log_max as int]
    } else {
        let prev = folded_after(betas, steps, index, ro, log_max, (i - 1) as nat);
        let idx_i = index / (pow2((i - 1) as nat) as int);
        let sibling = steps[i - 1].sibling_value@;
        let f = fold_row_s(
            (idx_i / 2) as nat,
            (log_max - i) as nat,
            betas[i - 1],
            round_e0(prev, sibling, idx_i),
            round_e1(prev, sibling, idx_i),
        );
        eadd(f, ro[(log_max - i) as int])
    }
}

/// Round `i` of a query is accepted: the pair that the verifier rebuilds
/// from its running value and the recorded sibling is exactly what the
/// round's commitment holds at the pair position.
pub open spec fn round_check_ok(
    commits: Seq<RoundCommitment>,
    betas: Seq<Seq<int>>,
    steps: Seq<CommitPhaseProofStep>,
    index: int,
    ro: Seq<Seq<int>>,
    log_max: nat,
    i: nat,
) -> bool {
    let prev = folded_after(betas, steps, index, ro, log_max, i);
    let idx_i = index / (pow2(i) as int);
    let pair = idx_i / 2;
    let sibling = steps[i as int].sibling_value@;
    &&& commits[i as int].word@.len() == 2 * pow2((log_max - i - 1) as nat)
    &&& pair < pow2((log_max - i - 1) as nat)
    &&& commits[i as int].word@[2 * pair]@ == round_e0(prev, sibling, idx_i)
    &&& commits[i as int].word@[2 * pair + 1]@ == round_e1(prev, sibling, idx_i)
}

/// One query is accepted: it carries one opened sibling per round, every
/// round's pair matches the round's commitment, and the fully folded
/// value equals the final polynomial at the point that the query index's
/// bit-reversed position selects.
pub open spec fn query_accepted(
    config: FriConfig,
    commits: Seq<RoundCommitment>,
    final_poly: Seq<Ext>,
    betas: Seq<Seq<int>>,
    steps: Seq<CommitPhaseProofStep>,
    index: int,
    ro: Seq<Seq<int>>,
) -> bool {
    let rounds = commits.len() as nat;
    let stop_bits = (config.log_blowup + config.log_final_poly_len) as nat;
    let log_max = (rounds + stop_bits) as nat;
    &&& steps.len() == rounds
    &&& forall|i: nat|
        i < rounds ==> #[trigger] round_check_ok(commits, betas, steps, index, ro, log_max, i)
    &&& folded_after(betas, steps, index, ro, log_max, rounds) == epoly_eval(
        views_of(final_poly),
        efrom(
            fpow(
                two_adic_gen(stop_bits),
                rev_bits((index / (pow2(rounds) as int)) as nat, stop_bits),
            ),
        ),
    )
}

/// Replays the transcript over a proof's commitments, rejects a proof of
/// the wrong shape or a failing proof-of-work witness, and samples the
/// query indices. On success the returned challenges have one folding
/// challenge per fold round and `num_queries` indices below the full
/// height.
pub fn verify_shape_and_sample_challenges(
    config: &FriConfig,
    proof: &FriProof,
    challenger: &mut Challenger,
) -> (r: Result<FriChallenges, FriError>)
    requires
        config.wf(),
        old(challenger).wf(),
        wf_fri_proof(*proof),
    ensures
        final(challenger).wf(),
        (r is Ok) <==> proof_shape_ok(*config, *proof) && pow_ok(
            *config,
            *proof,
            old(challenger).st@,
        ),
        r matches Err(e) ==> {
            &&& !proof_shape_ok(*config, *proof) ==> e == FriError::InvalidProofShape
            &&& proof_shape_ok(*config, *proof) ==> e == FriError::InvalidPowWitness
        },
        r matches Ok(c) ==> {
            let s0 = old(challenger).st@;
            let words = commit_views(proof.commit_phase_commits@);
            let s2v = squeeze(absorb(replay_pre_pow_state(*proof, s0), proof.pow_witness@));
            &&& c.betas@.len() == proof.commit_phase_commits@.len()
            &&& forall|i: int| 0 <= i < c.betas@.len() ==> (#[trigger] c.betas@[i]).wf()
            &&& forall|i: int|
                0 <= i < c.betas@.len() ==> (#[trigger] c.betas@[i])@ == squeeze4(
                    absorb_ext_seq(obs_rounds_state(words, s0, i as nat), words[i]),
                )
            &&& c.query_indices@.len() == config.num_queries
            &&& proof.query_proofs@.len() == config.num_queries
            &&& proof.commit_phase_commits@.len() + config.log_blowup + config.log_final_poly_len
                <= 27
            &&& forall|q: int|
                0 <= q < c.query_indices@.len() ==> #[trigger] c.query_indices@[q] < pow2(
                    (proof.commit_phase_commits@.len() + config.log_blowup
                        + config.log_final_poly_len) as nat,
                )
            &&& forall|q: int|
                0 <= q < c.query_indices@.len() ==> #[trigger] c.query_indices@[q] == squeeze_n(
                    s2v,
                    (q + 1) as nat,
                ) % (pow2(
                    (proof.commit_phase_commits@.len() + config.log_blowup
                        + config.log_final_poly_len) as nat,
                ) as int)
            &&& final(challenger).st@ == squeeze_n(s2v, config.num_queries as nat)
        },
{
    let ghost s0 = old(challenger).st@;
    let ghost words = commit_views(proof.commit_phase_commits@);
    let rounds = proof.commit_phase_commits.len();
    let mut betas: Vec<Ext> = Vec::new();
    let mut i: usize = 0;
    while i < rounds
        invariant
            challenger.wf(),
            wf_fri_proof(*proof),
            s0 == old(challenger).st@,
            words == commit_views(proof.commit_phase_commits@),
            rounds == proof.commit_phase_commits@.len(),
            i <= rounds,
            betas@.len() == i,
            challenger.st@ == obs_rounds_state(words, s0, i as nat),
            forall|t: int| 0 <= t < i ==> (#[trigger] betas@[t]).wf(),
            forall|t: int|
                0 <= t < i ==> (#[trigger] betas@[t])@ == squeeze4(
                    absorb_ext_seq(obs_rounds_state(words, s0, t as nat), words[t]),
                ),
        decreases rounds - i,
    {
        let ghost prev_state = challenger.st@;
        challenger.observe_ext_slice(&proof.commit_phase_commits[i].word);
        proof {
            assert(proof.commit_phase_commits@[i as int].word@.map_values(|x: Ext| x@)
                =~= views_of(proof.commit_phase_commits@[i as int].word@));
            assert(words[i as int] == views_of(proof.commit_phase_commits@[i as int].word@));
            assert(challenger.st@ == absorb_ext_seq(prev_state, words[i as int]));
        }
        let beta = challenger.sample_ext();
        betas.push(beta);
        i = i + 1;
    }
    let ghost pre_obs = challenger.st@;
    challenger.observe_ext_slice(&proof.final_poly);
    proof {
        assert(proof.final_poly@.map_values(|x: Ext| x@) =~= views_of(proof.final_poly@));
        assert(challenger.st@ == replay_pre_pow_state(*proof, s0));
    }
    if proof.query_proofs.len() != config.num_queries {
        return Err(FriError::InvalidProofShape);
    }
    if rounds > 27 - config.log_blowup - config.log_final_poly_len {
        return Err(FriError::InvalidProofShape);
    }
    if !challenger.check_witness(config.proof_of_work_bits, proof.pow_witness) {
        return Err(FriError::InvalidPowWitness);
    }
    let ghost s2v = squeeze(absorb(replay_pre_pow_state(*proof, s0), proof.pow_witness@));
    proof {
        assert(challenger.st@ == s2v);
    }
    let log_max_height = rounds + config.log_blowup + config.log_final_poly_len;
    let mut query_indices: Vec<usize> = Vec::new();
    let mut q: usize = 0;
    while q < config.num_queries
        invariant
            config.wf(),
            challenger.wf(),
            log_max_height <= 27,
            challenger.st@ == squeeze_n(s2v, q as nat),
            q <= config.num_queries,
            query_indices@.len() == q,
            forall|t: int|
                0 <= t < q ==> #[trigger] query_indices@[t] < pow2(log_max_height as nat),
            forall|t: int|
                0 <= t < q ==> #[trigger] query_indices@[t] == squeeze_n(s2v, (t + 1) as nat) % (
                pow2(log_max_height as nat) as int),
        decreases config.num_queries - q,
    {
        let idx = challenger.sample_bits(log_max_height);
        query_indices.push(idx);
        q = q + 1;
    }
    Ok(FriChallenges { query_indices, betas })
}

/// Checks every query of a proof against the sampled challenges and the
/// caller's reduced openings (one vector per query, indexed by the
/// base-two logarithm of the height). Accepts exactly when every query is
/// accepted.
#[verifier::rlimit(100)]
pub fn verify_challenges(
    config: &FriConfig,
    proof: &FriProof,
    challenges: &FriChallenges,
    reduced_openings: &Vec<Vec<Ext>>,
) -> (r: Result<(), FriError>)
    requires
        config.wf(),
        wf_fri_proof(*proof),
        proof.commit_phase_commits@.len() + config.log_blowup + config.log_final_poly_len <= 27,
        challenges.betas@.len() == proof.commit_phase_commits@.len(),
        forall|i: int| 0 <= i < challenges.betas@.len() ==> (#[trigger] challenges.betas@[i]).wf(),
        challenges.query_indices@.len() == config.num_queries,
        proof.query_proofs@.len() == config.num_queries,
        forall|q: int|
            0 <= q < challenges.query_indices@.len() ==> #[trigger] challenges.query_indices@[q]
                < pow2(
                (proof.commit_phase_commits@.len() + config.log_blowup
                    + config.log_final_poly_len) as nat,
            ),
        reduced_openings@.len() == config.num_queries,
        forall|q: int|
            0 <= q < reduced_openings@.len() ==> (#[trigger] reduced_openings@[q])@.len() == 28
                && wf_ext_seq(reduced_openings@[q]@),
    ensures
        r matches Ok(u) <==> forall|q: int|
            0 <= q < config.num_queries ==> #[trigger] query_accepted(
                *config,
                proof.commit_phase_commits@,
                proof.final_poly@,
                views_of(challenges.betas@),
                proof.query_proofs@[q].commit_phase_openings@,
                challenges.query_indices@[q] as int,
                views_of(reduced_openings@[q]@),
            ),
{
    let ghost betasv = views_of(challenges.betas@);
    let ghost commitsv = proof.commit_phase_commits@;
    let rounds = proof.commit_phase_commits.len();
    let stop_bits = config.log_blowup + config.log_final_poly_len;
    let log_max = rounds + stop_bits;
    let mut q: usize = 0;
    while q < config.num_queries
        invariant
            config.wf(),
            wf_fri_proof(*proof),
            betasv == views_of(challenges.betas@),
            commitsv == proof.commit_phase_commits@,
            rounds == proof.commit_phase_commits@.len(),
            stop_bits == config.log_blowup + config.log_final_poly_len,
            log_max == rounds + stop_bits,
            log_max <= 27,
            challenges.betas@.len() == rounds,
            forall|i: int|
                0 <= i < challenges.betas@.len() ==> (#[trigger] challenges.betas@[i]).wf(),
            challenges.query_indices@.len() == config.num_queries,
            proof.query_proofs@.len() == config.num_queries,
            forall|t: int|
                0 <= t < challenges.query_indices@.len() ==> #[trigger] challenges.query_indices@[t]
                    < pow2(log_max as nat),
            reduced_openings@.len() == config.num_queries,
            forall|t: int|
                0 <= t < reduced_openings@.len() ==> (#[trigger] reduced_openings@[t])@.len() == 28
                    && wf_ext_seq(reduced_openings@[t]@),
            q <= config.num_queries,
            forall|t: int|
                0 <= t < q ==> #[trigger] query_accepted(
                    *config,
                    proof.commit_phase_commits@,
                    proof.final_poly@,
                    views_of(challenges.betas@),
                    proof.query_proofs@[t].commit_phase_openings@,
                    challenges.query_indices@[t] as int,
                    views_of(reduced_openings@[t]@),
                ),
        decreases config.num_queries - q,
    {
        let ghost steps = proof.query_proofs@[q as int].commit_phase_openings@;
        let ghost rov = views_of(reduced_openings@[q as int]@);
        let index = challenges.query_indices[q];
        let qp = &proof.query_proofs[q];
        if qp.commit_phase_openings.len() != rounds {
            proof {
                assert(!query_accepted(
                    *config,
                    commitsv,
                    proof.final_poly@,
                    betasv,
                    steps,
                    index as int,
                    rov,
                ));
            }
            return Err(FriError::InvalidProofShape);
        }
        let roq = &reduced_openings[q];
        let mut folded = roq[log_max];
        let mut cur = index;
        let mut i: usize = 0;
        proof {
            assert(pow2(0) == 1) by {
                vstd::arithmetic::power2::lemma2_to64();
            };
            assert(index as int / 1 == index as int);
            assert(views_of(roq@)[log_max as int] == roq@[log_max as int]@);
        }
        while i < rounds
            invariant
                config.wf(),
                wf_fri_proof(*proof),
                betasv == views_of(challenges.betas@),
                commitsv == proof.commit_phase_commits@,
                rounds == proof.commit_phase_commits@.len(),
                stop_bits == config.log_blowup + config.log_final_poly_len,
                log_max == rounds + stop_bits,
                log_max <= 27,
                challenges.betas@.len() == rounds,
                forall|t: int|
                    0 <= t < challenges.betas@.len() ==> (#[trigger] challenges.betas@[t]).wf(),
                q < config.num_queries,
                proof.query_proofs@.len() == config.num_queries,
                steps == proof.query_proofs@[q as int].commit_phase_openings@,
                qp == &proof.query_proofs@[q as int],
                qp.commit_phase_openings@ == steps,
                steps.len() == rounds,
                reduced_openings@.len() == config.num_queries,
                roq == reduced_openings@[q as int],
                roq@.len() == 28,
                wf_ext_seq(roq@),
                rov == views_of(roq@),
                index == challenges.query_indices@[q as int],
                index < pow2(log_max as nat),
                i <= rounds,
                cur == (index as int) / (pow2(i as nat) as int),
                folded.wf(),
                folded@ == folded_after(betasv, steps, index as int, rov, log_max as nat, i as nat),
                forall|t: nat|
                    t < i ==> #[trigger] round_check_ok(
                        commitsv,
                        betasv,
                        steps,
                        index as int,
                        rov,
                        log_max as nat,
                        t,
                    ),
            decreases rounds - i,
        {
            let ghost hbits = (log_max - i) as nat;
            proof {
                lemma_pow2_adds(i as nat, hbits);
                lemma_pow2_pos(i as nat);
                lemma_pow2_pos(hbits);
                assert((index as int) < (pow2(i as nat) as int) * (pow2(hbits) as int));
                vstd::arithmetic::div_mod::lemma_multiply_divide_lt(
                    index as int,
                    pow2(i as nat) as int,
                    pow2(hbits) as int,
                );
                assert(cur < pow2(hbits));
                lemma_pow2_unfold(hbits);
                vstd::arithmetic::div_mod::lemma_fundamental_div_mod(cur as int, 2);
            }
            let pair = cur / 2;
            let step = &qp.commit_phase_openings[i];
            let sibling = step.sibling_value;
            let (e0, e1) = if cur % 2 == 0 {
                (folded, sibling)
            } else {
                (sibling, folded)
            };
            let pair_count = pow2_usize(log_max - i - 1);
            let ok = round_verify(
                &proof.commit_phase_commits[i],
                pair_count,
                pair,
                e0,
                e1,
                &step.opening_proof,
            );
            let ghost prev = folded_after(betasv, steps, index as int, rov, log_max as nat, i as nat);
            proof {
                assert(e0@ == round_e0(prev, steps[i as int].sibling_value@, cur as int));
                assert(e1@ == round_e1(prev, steps[i as int].sibling_value@, cur as int));
            }
            if !ok {
                proof {
                    if round_check_ok(
                        commitsv,
                        betasv,
                        steps,
                        index as int,
                        rov,
                        log_max as nat,
                        i as nat,
                    ) {
                        let w = commitsv[i as int].word@;
                        crate::ext::lemma_ext_eq(w[2 * pair as int], e0);
                        crate::ext::lemma_ext_eq(w[2 * pair as int + 1], e1);
                        assert(false);
                    }
                    assert(!query_accepted(
                        *config,
                        commitsv,
                        proof.final_poly@,
                        betasv,
                        steps,
                        index as int,
                        rov,
                    ));
                }
                return Err(FriError::CommitPhaseMmcsError);
            }
            let lfh = log_max - i - 1;
            let beta = challenges.betas[i];
            let f = fold_row(pair, lfh, beta, e0, e1);
            let mixed = f.add(roq[lfh]);
            proof {
                assert(round_check_ok(
                    commitsv,
                    betasv,
                    steps,
                    index as int,
                    rov,
                    log_max as nat,
                    i as nat,
                ));
                assert(betasv[i as int] == challenges.betas@[i as int]@);
                assert(rov[lfh as int] == roq@[lfh as int]@);
                assert(mixed@ == folded_after(
                    betasv,
                    steps,
                    index as int,
                    rov,
                    log_max as nat,
                    (i + 1) as nat,
                ));
            }
            folded = mixed;
            cur = pair;
            i = i + 1;
            proof {
                vstd::arithmetic::div_mod::lemma_div_denominator(
                    index as int,
                    pow2((i - 1) as nat) as int,
                    2,
                );
                lemma_pow2_unfold(i as nat);
                assert((pow2((i - 1) as nat) as int) * 2 == pow2(i as nat) as int);
            }
        }
        let x = Fp::two_adic_generator(stop_bits).pow_u64(reverse_bits_len(cur, stop_bits) as u64);
        let expected = eval_poly(&proof.final_poly, Ext::from_base(x));
        proof {
            assert(cur == (index as int) / (pow2(rounds as nat) as int));
        }
        if folded != expected {
            proof {
                if query_accepted(
                    *config,
                    commitsv,
                    proof.final_poly@,
                    betasv,
                    steps,
                    index as int,
                    rov,
                ) {
                    crate::ext::lemma_ext_eq(folded, expected);
                    assert(false);
                }
            }
            return Err(FriError::FinalPolyMismatch);
        }
        proof {
            assert(query_accepted(
                *config,
                commitsv,
                proof.final_poly@,
                betasv,
                steps,
                index as int,
                rov,
            ));
        }
        q = q + 1;
    }
    Ok(())
}

} // verus!
