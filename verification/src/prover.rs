//! The FRI prover: the commit phase, which folds the input codewords down
//! to a small final polynomial, and the query phase, which answers each
//! sampled query with one opened sibling per fold round.

use vstd::prelude::*;
use vstd::arithmetic::power2::{lemma_pow2_adds, lemma_pow2_pos, lemma_pow2_strictly_increases, lemma_pow2_unfold, pow2};
use crate::bits::{log2_strict, pow2_usize, rev_bits, reverse_bits_len};
use crate::challenger::{
    absorb, absorb_ext_seq, grind_witness_s, squeeze, squeeze4, squeeze4_state, squeeze_n,
    Challenger,
};
use crate::config::FriConfig;
use crate::dft::idft_coeffs;
use crate::ext::{eadd, efrom, epoly_eval, ezero, views_of, Ext};
use crate::field::{fpow, two_adic_gen, Fp};
use crate::fold::{fold_codeword, fold_row_s};
use crate::fri_proof::{CommitPhaseProofStep, FriProof, ProverError, QueryProof};
use crate::mmcs::{copy_ext_vec, round_commit, round_open, wf_ext_seq, RoundCommitment, RoundProverData};

verus! {

/// The view of a codeword folded with challenge `beta`, down to length
/// `2^lfh`.
pub open spec fn folded_word(word: Seq<Seq<int>>, beta: Seq<int>, lfh: nat) -> Seq<Seq<int>> {
    Seq::new(pow2(lfh) as nat, |i: int| fold_row_s(i as nat, lfh, beta, word[2 * i], word[2 * i + 1]))
}

/// Element-wise sum of two codeword views.
pub open spec fn added_words(a: Seq<Seq<int>>, b: Seq<Seq<int>>) -> Seq<Seq<int>> {
    Seq::new(a.len(), |i: int| eadd(a[i], b[i]))
}

/// The codeword entering round `i` of the commit phase: the longest input
/// at round zero; afterwards the previous round's codeword folded with
/// that round's challenge, with the equal-length input mixed in where one
/// exists. `ks` are the size exponents of the inputs, strictly descending.
pub open spec fn word_chain(
    inputs: Seq<Seq<Seq<int>>>,
    ks: Seq<nat>,
    betas: Seq<Seq<int>>,
    i: nat,
) -> Seq<Seq<int>>
    decreases i,
{
    if i == 0 {
        inputs[0]
    } else {
        let prev = word_chain(inputs, ks, betas, (i - 1) as nat);
        let f = folded_word(prev, betas[i - 1], (ks[0] - i) as nat);
        if exists|j: int| 1 <= j < ks.len() && #[trigger] ks[j] == ks[0] - i {
            added_words(f, inputs[choose|j: int| 1 <= j < ks.len() && #[trigger] ks[j] == ks[0] - i])
        } else {
            f
        }
    }
}

/// The chain reads only the challenges of earlier rounds.
pub proof fn lemma_word_chain_prefix(
    inputs: Seq<Seq<Seq<int>>>,
    ks: Seq<nat>,
    b1: Seq<Seq<int>>,
    b2: Seq<Seq<int>>,
    i: nat,
)
    requires
        i <= b1.len(),
        i <= b2.len(),
        forall|t: int| 0 <= t < i ==> b1[t] == b2[t],
    ensures
        word_chain(inputs, ks, b1, i) == word_chain(inputs, ks, b2, i),
    decreases i,
{
    if i > 0 {
        lemma_word_chain_prefix(inputs, ks, b1, b2, (i - 1) as nat);
    }
}

/// The number of fold rounds the commit phase runs for the given input
/// exponents.
pub open spec fn rounds_of(ks: Seq<nat>, config: FriConfig) -> nat {
    (ks[0] - (config.log_blowup + config.log_final_poly_len)) as nat
}

/// The codeword and transcript state entering round `i` of the commit
/// phase, as a function of the inputs and the starting state alone: each
/// round absorbs the codeword it is about to fold, only then draws the
/// folding challenge by four squeezes, folds, and mixes in the
/// equal-length input where one exists. A folding challenge can therefore
/// never precede the codeword it folds.
pub open spec fn round_chain(
    inputs: Seq<Seq<Seq<int>>>,
    ks: Seq<nat>,
    s0: int,
    i: nat,
) -> (Seq<Seq<int>>, int)
    decreases i,
{
    if i == 0 {
        (inputs[0], s0)
    } else {
        let prev = round_chain(inputs, ks, s0, (i - 1) as nat);
        let mid = absorb_ext_seq(prev.1, prev.0);
        let f = folded_word(prev.0, squeeze4(mid), (ks[0] - i) as nat);
        let w = if exists|j: int| 1 <= j < ks.len() && #[trigger] ks[j] == ks[0] - i {
            added_words(
                f,
                inputs[choose|j: int| 1 <= j < ks.len() && #[trigger] ks[j] == ks[0] - i],
            )
        } else {
            f
        };
        (w, squeeze4_state(mid))
    }
}

/// The folding challenge of round `i`: drawn after the round's codeword
/// was absorbed.
pub open spec fn round_beta(inputs: Seq<Seq<Seq<int>>>, ks: Seq<nat>, s0: int, i: nat) -> Seq<
    int,
> {
    let prev = round_chain(inputs, ks, s0, i);
    squeeze4(absorb_ext_seq(prev.1, prev.0))
}

/// A bit-reversed codeword read back in natural index order.
pub open spec fn rev_word(w: Seq<Seq<int>>, bits: nat) -> Seq<Seq<int>> {
    Seq::new(pow2(bits) as nat, |j: int| w[rev_bits(j as nat, bits) as int])
}

/// The coefficients the commit phase recovers from the fully folded
/// codeword.
pub open spec fn cp_coeffs(
    inputs: Seq<Seq<Seq<int>>>,
    ks: Seq<nat>,
    s0: int,
    config: FriConfig,
) -> Seq<Seq<int>> {
    idft_coeffs(
        rev_word(
            round_chain(inputs, ks, s0, rounds_of(ks, config)).0,
            (config.log_blowup + config.log_final_poly_len) as nat,
        ),
    )
}

/// Some coefficient at or beyond position `from` is nonzero.
pub open spec fn has_high_coeff(coeffs: Seq<Seq<int>>, from: int) -> bool {
    exists|j: int| from <= j < coeffs.len() && #[trigger] coeffs[j] != ezero()
}

/// The transcript state after the commit phase has absorbed every final
/// polynomial coefficient.
pub open spec fn post_commit_state(
    inputs: Seq<Seq<Seq<int>>>,
    ks: Seq<nat>,
    s0: int,
    config: FriConfig,
) -> int {
    absorb_ext_seq(
        round_chain(inputs, ks, s0, rounds_of(ks, config)).1,
        cp_coeffs(inputs, ks, s0, config),
    )
}

/// The transcript state after the proof-of-work grind.
pub open spec fn post_grind_state(
    inputs: Seq<Seq<Seq<int>>>,
    ks: Seq<nat>,
    s0: int,
    config: FriConfig,
) -> int {
    let s1 = post_commit_state(inputs, ks, s0, config);
    squeeze(absorb(s1, grind_witness_s(s1)))
}

/// With every challenge pinned to the transcript, the challenge-indexed
/// chain is the transcript-indexed chain.
pub proof fn lemma_round_chain_words(
    inputs: Seq<Seq<Seq<int>>>,
    ks: Seq<nat>,
    betas: Seq<Seq<int>>,
    s0: int,
    i: nat,
)
    requires
        i <= betas.len(),
        forall|t: int| 0 <= t < i ==> #[trigger] betas[t] == round_beta(inputs, ks, s0, t as nat),
    ensures
        word_chain(inputs, ks, betas, i) == round_chain(inputs, ks, s0, i).0,
    decreases i,
{
    if i > 0 {
        lemma_round_chain_words(inputs, ks, betas, s0, (i - 1) as nat);
        assert(betas[i - 1] == round_beta(inputs, ks, s0, (i - 1) as nat));
    }
}

/// What the commit phase hands back: one commitment and one retained
/// openable codeword per fold round, the final polynomial, and, for the
/// contracts, the sampled challenges and the fully folded codeword.
pub struct CommitPhaseResult {
    pub commits: Vec<RoundCommitment>,
    pub data: Vec<RoundProverData>,
    pub final_poly: Vec<Ext>,
    pub betas: Ghost<Seq<Seq<int>>>,
    pub final_word: Ghost<Seq<Seq<int>>>,
}

/// The deep view of a list of codewords.
pub open spec fn input_views(inputs: Seq<Vec<Ext>>) -> Seq<Seq<Seq<int>>> {
    inputs.map_values(|v: Vec<Ext>| views_of(v@))
}

/// The caller's obligations on a list of input codewords: nonempty, all
/// entries reduced, lengths the powers of two given by `ks`, strictly
/// descending, within the field's two-adicity, and all longer than the
/// final codeword of the given config.
pub open spec fn wf_inputs(inputs: Seq<Vec<Ext>>, ks: Seq<nat>, config: FriConfig) -> bool {
    &&& inputs.len() >= 1
    &&& ks.len() == inputs.len()
    &&& forall|t: int| 0 <= t < inputs.len() ==> wf_ext_seq(#[trigger] inputs[t]@)
    &&& forall|t: int| 0 <= t < inputs.len() ==> (#[trigger] inputs[t]@.len()) == pow2(ks[t])
    &&& forall|t: int| 0 <= t && t + 1 < ks.len() ==> #[trigger] ks[t + 1] < ks[t]
    &&& ks[0] <= 27
    &&& ks[ks.len() - 1] > config.log_blowup + config.log_final_poly_len
}

/// Element-wise sum of two codewords.
pub fn add_codewords(a: &Vec<Ext>, b: &Vec<Ext>) -> (r: Vec<Ext>)
    requires
        a@.len() == b@.len(),
        wf_ext_seq(a@),
        wf_ext_seq(b@),
    ensures
        r@.len() == a@.len(),
        wf_ext_seq(r@),
        forall|i: int| 0 <= i < r@.len() ==> (#[trigger] r@[i])@ == eadd(a@[i]@, b@[i]@),
{
    let mut r: Vec<Ext> = Vec::new();
    let mut i: usize = 0;
    while i < a.len()
        invariant
            a@.len() == b@.len(),
            wf_ext_seq(a@),
            wf_ext_seq(b@),
            i <= a@.len(),
            r@.len() == i,
            wf_ext_seq(r@),
            forall|k: int| 0 <= k < i ==> (#[trigger] r@[k])@ == eadd(a@[k]@, b@[k]@),
        decreases a@.len() - i,
    {
        let v = a[i].add(b[i]);
        r.push(v);
        i = i + 1;
    }
    r
}

/// Reorders a codeword from bit-reversed to natural index order.
pub fn reverse_index_bits_vec(v: &Vec<Ext>, bits: usize) -> (r: Vec<Ext>)
    requires
        bits < 30,
        v@.len() == pow2(bits as nat),
        wf_ext_seq(v@),
    ensures
        r@.len() == v@.len(),
        wf_ext_seq(r@),
        forall|j: int| 0 <= j < r@.len() ==> #[trigger] r@[j] == v@[rev_bits(j as nat, bits as nat) as int],
{
    let n = v.len();
    let mut r: Vec<Ext> = Vec::new();
    let mut j: usize = 0;
    while j < n
        invariant
            bits < 30,
            v@.len() == pow2(bits as nat),
            n == v@.len(),
            wf_ext_seq(v@),
            j <= n,
            r@.len() == j,
            wf_ext_seq(r@),
            forall|t: int| 0 <= t < j ==> #[trigger] r@[t] == v@[rev_bits(t as nat, bits as nat) as int],
        decreases n - j,
    {
        let rj = reverse_bits_len(j, bits);
        let x = v[rj];
        r.push(x);
        j = j + 1;
    }
    r
}

/// The commit phase: repeatedly commit the current codeword as adjacent
/// pairs, draw the folding challenge from the transcript, fold, and mix in
/// the equal-length input where one exists; finally recover the fully
/// folded polynomial's coefficients, reject a nonzero high-degree tail,
/// and absorb every coefficient into the transcript.
///
/// On success, round `i`'s retained codeword is exactly `word_chain` at
/// `i`, its commitment holds the same word, and every coefficient of the
/// final polynomial at or beyond `2^log_final_poly_len` is zero.
#[verifier::rlimit(100)]
pub fn commit_phase(
    config: &FriConfig,
    inputs: &Vec<Vec<Ext>>,
    challenger: &mut Challenger,
    Ghost(ks): Ghost<Seq<nat>>,
) -> (r: Result<CommitPhaseResult, ProverError>)
    requires
        config.wf(),
        old(challenger).wf(),
        wf_inputs(inputs@, ks, *config),
    ensures
        final(challenger).wf(),
        r matches Err(e) ==> e == ProverError::FinalPolyTailNonZero,
        (r is Err) <==> has_high_coeff(
            cp_coeffs(input_views(inputs@), ks, old(challenger).st@, *config),
            pow2(config.log_final_poly_len as nat) as int,
        ),
        r matches Ok(res) ==> {
            let rounds = ks[0] - (config.log_blowup + config.log_final_poly_len);
            let stop_bits = (config.log_blowup + config.log_final_poly_len) as nat;
            let s0 = old(challenger).st@;
            &&& forall|i: int|
                0 <= i < rounds ==> #[trigger] res.betas@[i] == round_beta(
                    input_views(inputs@),
                    ks,
                    s0,
                    i as nat,
                )
            &&& forall|i: int|
                0 <= i < rounds ==> views_of((#[trigger] res.data@[i]).word@) == round_chain(
                    input_views(inputs@),
                    ks,
                    s0,
                    i as nat,
                ).0
            &&& res.final_word@ == round_chain(input_views(inputs@), ks, s0, rounds as nat).0
            &&& views_of(res.final_poly@) == cp_coeffs(input_views(inputs@), ks, s0, *config)
            &&& final(challenger).st@ == post_commit_state(input_views(inputs@), ks, s0, *config)
            &&& res.commits@.len() == rounds
            &&& res.data@.len() == rounds
            &&& res.betas@.len() == rounds
            &&& forall|i: int|
                0 <= i < rounds ==> (#[trigger] res.commits@[i]).word@ == res.data@[i].word@
            &&& forall|i: int|
                0 <= i < rounds ==> (#[trigger] res.data@[i]).word@.len() == pow2(
                    (ks[0] - i) as nat,
                )
            &&& forall|i: int| 0 <= i < rounds ==> wf_ext_seq((#[trigger] res.data@[i]).word@)
            &&& forall|i: int|
                0 <= i < rounds ==> views_of((#[trigger] res.data@[i]).word@) == word_chain(
                    input_views(inputs@),
                    ks,
                    res.betas@,
                    i as nat,
                )
            &&& res.final_word@ == word_chain(input_views(inputs@), ks, res.betas@, rounds as nat)
            &&& res.final_word@.len() == pow2(stop_bits)
            &&& res.final_poly@.len() == pow2(stop_bits)
            &&& wf_ext_seq(res.final_poly@)
            &&& forall|j: int|
                pow2(config.log_final_poly_len as nat) <= j < res.final_poly@.len()
                    ==> (#[trigger] res.final_poly@[j])@ == crate::ext::ezero()
            &&& forall|j: int|
                0 <= j < res.final_word@.len() ==> #[trigger] res.final_word@[rev_bits(
                    j as nat,
                    stop_bits,
                ) as int] == epoly_eval(
                    views_of(res.final_poly@),
                    efrom(fpow(two_adic_gen(stop_bits), j as nat)),
                )
        },
{
    let ghost iviews = input_views(inputs@);
    let ghost s0 = old(challenger).st@;
    let stop_bits = config.log_blowup + config.log_final_poly_len;
    let first = &inputs[0];
    let log_max = log2_strict(first.len(), Ghost(ks[0]));
    let mut folded = copy_ext_vec(first);
    let mut commits: Vec<RoundCommitment> = Vec::new();
    let mut data: Vec<RoundProverData> = Vec::new();
    let ghost mut betas: Seq<Seq<int>> = Seq::empty();
    let mut ptr: usize = 1;
    let mut lh = log_max;
    proof {
        assert(views_of(folded@) == word_chain(iviews, ks, betas, 0));
        if ks.len() > 1 {
            lemma_ks_descending(ks, 0, ks.len() - 1);
        }
        assert forall|j: int| 1 <= j < ks.len() implies #[trigger] ks[j] < lh by {
            lemma_ks_descending(ks, 0, j);
        }
    }
    while lh > stop_bits
        invariant
            config.wf(),
            wf_inputs(inputs@, ks, *config),
            iviews == input_views(inputs@),
            challenger.wf(),
            stop_bits == config.log_blowup + config.log_final_poly_len,
            log_max == ks[0],
            stop_bits <= lh <= log_max,
            folded@.len() == pow2(lh as nat),
            wf_ext_seq(folded@),
            commits@.len() == log_max - lh,
            data@.len() == log_max - lh,
            betas.len() == log_max - lh,
            1 <= ptr <= inputs@.len(),
            forall|j: int| ptr <= j < ks.len() ==> #[trigger] ks[j] < lh,
            forall|j: int| 1 <= j < ptr ==> #[trigger] ks[j] >= lh,
            forall|i: int|
                0 <= i < commits@.len() ==> (#[trigger] commits@[i]).word@ == data@[i].word@,
            forall|i: int|
                0 <= i < data@.len() ==> (#[trigger] data@[i]).word@.len() == pow2(
                    (ks[0] - i) as nat,
                ),
            forall|i: int| 0 <= i < data@.len() ==> wf_ext_seq((#[trigger] data@[i]).word@),
            forall|i: int|
                0 <= i < data@.len() ==> views_of((#[trigger] data@[i]).word@) == word_chain(
                    iviews,
                    ks,
                    betas,
                    i as nat,
                ),
            views_of(folded@) == word_chain(iviews, ks, betas, (log_max - lh) as nat),
            challenger.st@ == round_chain(iviews, ks, s0, (log_max - lh) as nat).1,
            forall|t: int|
                0 <= t < betas.len() ==> #[trigger] betas[t] == round_beta(
                    iviews,
                    ks,
                    s0,
                    t as nat,
                ),
        decreases lh,
    {
        let ghost round = (log_max - lh) as nat;
        let ghost old_betas = betas;
        let ghost prev_views = views_of(folded@);
        let ghost prev_state = challenger.st@;
        let (c, d) = round_commit(&folded);
        challenger.observe_ext_slice(&c.word);
        let beta = challenger.sample_ext();
        proof {
            // The round's transcript transition matches the chain.
            lemma_round_chain_words(iviews, ks, old_betas, s0, round);
            assert(c.word@.map_values(|x: Ext| x@) =~= views_of(c.word@));
            assert(views_of(c.word@) == round_chain(iviews, ks, s0, round).0);
            let mid = absorb_ext_seq(prev_state, round_chain(iviews, ks, s0, round).0);
            assert(beta@ == squeeze4(mid));
            assert(beta@ == round_beta(iviews, ks, s0, round));
            assert(challenger.st@ == squeeze4_state(mid));
            assert(challenger.st@ == round_chain(iviews, ks, s0, (round + 1) as nat).1);
            betas = betas.push(beta@);
            assert forall|i: int| 0 <= i < data@.len() + 1 implies #[trigger] word_chain(
                iviews,
                ks,
                old_betas,
                i as nat,
            ) == word_chain(iviews, ks, betas, i as nat) by {
                lemma_word_chain_prefix(iviews, ks, old_betas, betas, i as nat);
            }
            lemma_pow2_unfold(lh as nat);
        }
        commits.push(c);
        data.push(d);
        let folded_next = fold_codeword(beta, &folded, lh - 1);
        lh = lh - 1;
        proof {
            let f = folded_word(prev_views, beta@, lh as nat);
            assert(views_of(folded_next@) =~= f) by {
                assert forall|i: int| 0 <= i < f.len() implies views_of(folded_next@)[i] == f[i] by {
                    assert(folded_next@[i]@ == fold_row_s(
                        i as nat,
                        lh as nat,
                        beta@,
                        folded@[2 * i]@,
                        folded@[2 * i + 1]@,
                    ));
                    assert(prev_views[2 * i] == folded@[2 * i]@);
                    assert(prev_views[2 * i + 1] == folded@[2 * i + 1]@);
                }
            };
        }
        folded = folded_next;
        let ghost new_round = (log_max - lh) as nat;
        if ptr < inputs.len() && inputs[ptr].len() == folded.len() {
            proof {
                // The mixed-in input is the unique one of this length.
                let kp = ks[ptr as int];
                assert(pow2(kp) == pow2(lh as nat));
                if kp < lh {
                    lemma_pow2_strictly_increases(kp, lh as nat);
                }
                if kp > lh {
                    lemma_pow2_strictly_increases(lh as nat, kp);
                }
                assert(kp == lh as nat);
                assert(ks[0] - new_round == lh);
                assert(1 <= ptr < ks.len() && ks[ptr as int] == ks[0] - new_round);
                let jc = choose|j: int| 1 <= j < ks.len() && #[trigger] ks[j] == ks[0] - new_round;
                assert(jc == ptr) by {
                    if jc < ptr {
                        assert(ks[jc] >= lh + 1);
                    }
                    if jc > ptr {
                        assert(ks[jc] < ks[ptr as int] || jc == ptr) by {
                            lemma_ks_descending(ks, ptr as int, jc);
                        };
                    }
                };
            }
            let mixed = add_codewords(&folded, &inputs[ptr]);
            proof {
                let f = views_of(folded@);
                assert(views_of(mixed@) =~= added_words(f, iviews[ptr as int])) by {
                    assert forall|i: int| 0 <= i < mixed@.len() implies views_of(mixed@)[i]
                        == added_words(f, iviews[ptr as int])[i] by {
                        assert(mixed@[i]@ == eadd(folded@[i]@, inputs@[ptr as int]@[i]@));
                        assert(iviews[ptr as int][i] == inputs@[ptr as int]@[i]@);
                    }
                };
                assert(views_of(mixed@) == word_chain(iviews, ks, betas, new_round));
            }
            folded = mixed;
            ptr = ptr + 1;
            proof {
                assert forall|j: int| ptr <= j < ks.len() implies #[trigger] ks[j] < lh by {
                    lemma_ks_descending(ks, ptr - 1, j);
                }
            }
        } else {
            proof {
                // No input of this length exists.
                assert(!exists|j: int| 1 <= j < ks.len() && #[trigger] ks[j] == ks[0] - new_round) by {
                    if exists|j: int| 1 <= j < ks.len() && #[trigger] ks[j] == ks[0] - new_round {
                        let jc = choose|j: int| 1 <= j < ks.len() && #[trigger] ks[j] == ks[0] - new_round;
                        assert(ks[jc] == lh as nat);
                        if jc < ptr {
                            assert(ks[jc] >= lh + 1);
                        } else {
                            assert(ks[jc] < lh + 1);
                            if ptr < inputs@.len() && jc > ptr {
                                lemma_ks_descending(ks, ptr as int, jc);
                            }
                            // so jc == ptr, but then the length test above
                            // would have succeeded
                            assert(jc == ptr);
                            assert(inputs@[jc]@.len() == pow2(lh as nat));
                            assert(folded@.len() == pow2(lh as nat));
                            assert(false);
                        }
                    }
                };
                assert(views_of(folded@) == word_chain(iviews, ks, betas, new_round));
            }
        }
    }
    let ghost rounds_g = rounds_of(ks, *config);
    proof {
        assert(lh == stop_bits);
        lemma_pow2_pos(stop_bits as nat);
        lemma_round_chain_words(iviews, ks, betas, s0, rounds_g);
        assert(views_of(folded@) == round_chain(iviews, ks, s0, rounds_g).0);
    }
    let reversed = reverse_index_bits_vec(&folded, stop_bits);
    proof {
        assert(stop_bits < 27);
        assert(exists|k: nat| k <= 27 && reversed@.len() == pow2(k)) by {
            assert(stop_bits as nat <= 27 && reversed@.len() == pow2(stop_bits as nat));
        };
        assert(views_of(reversed@) =~= rev_word(views_of(folded@), stop_bits as nat)) by {
            assert forall|t: int| 0 <= t < reversed@.len() implies views_of(reversed@)[t]
                == rev_word(views_of(folded@), stop_bits as nat)[t] by {
                crate::bits::lemma_rev_bits_bound(t as nat, stop_bits as nat);
                assert(reversed@[t] == folded@[rev_bits(t as nat, stop_bits as nat) as int]);
            }
        };
    }
    let coeffs = crate::dft::idft_ext(&reversed);
    let ghost ccoe = cp_coeffs(iviews, ks, s0, *config);
    proof {
        assert(views_of(coeffs@) == idft_coeffs(views_of(reversed@)));
        assert(views_of(coeffs@) == ccoe);
    }
    let fpl = pow2_usize(config.log_final_poly_len);
    proof {
        lemma_pow2_strictly_increases(config.log_final_poly_len as nat, stop_bits as nat);
    }
    let mut j = fpl;
    while j < coeffs.len()
        invariant
            challenger.wf(),
            challenger.st@ == round_chain(iviews, ks, s0, rounds_g).1,
            rounds_g == rounds_of(ks, *config),
            iviews == input_views(inputs@),
            s0 == old(challenger).st@,
            views_of(coeffs@) == ccoe,
            ccoe == cp_coeffs(iviews, ks, s0, *config),
            coeffs@.len() == pow2(stop_bits as nat),
            stop_bits == config.log_blowup + config.log_final_poly_len,
            fpl == pow2(config.log_final_poly_len as nat),
            fpl <= j <= coeffs@.len(),
            wf_ext_seq(coeffs@),
            forall|t: int| fpl <= t < j ==> (#[trigger] coeffs@[t])@ == crate::ext::ezero(),
        decreases coeffs@.len() - j,
    {
        if !coeffs[j].is_zero() {
            proof {
                assert(views_of(coeffs@)[j as int] == coeffs@[j as int]@);
                assert(fpl <= j < ccoe.len() && ccoe[j as int] != ezero());
                assert(has_high_coeff(ccoe, fpl as int));
                assert(has_high_coeff(
                    cp_coeffs(input_views(inputs@), ks, old(challenger).st@, *config),
                    pow2(config.log_final_poly_len as nat) as int,
                ));
            }
            return Err(ProverError::FinalPolyTailNonZero);
        }
        j = j + 1;
    }
    proof {
        // No high coefficient: every checked position was zero.
        assert(!has_high_coeff(ccoe, fpl as int)) by {
            if has_high_coeff(ccoe, fpl as int) {
                let jw = choose|t: int| fpl <= t < ccoe.len() && #[trigger] ccoe[t] != ezero();
                assert(views_of(coeffs@)[jw] == coeffs@[jw]@);
                assert(coeffs@[jw]@ == crate::ext::ezero());
                assert(false);
            }
        };
    }
    challenger.observe_ext_slice(&coeffs);
    proof {
        assert(coeffs@.map_values(|x: Ext| x@) =~= views_of(coeffs@));
        assert(challenger.st@ == absorb_ext_seq(round_chain(iviews, ks, s0, rounds_g).1, ccoe));
        assert(challenger.st@ == post_commit_state(iviews, ks, s0, *config));
        assert forall|i: int| 0 <= i < data@.len() implies views_of(
            (#[trigger] data@[i]).word@,
        ) == round_chain(iviews, ks, s0, i as nat).0 by {
            lemma_round_chain_words(iviews, ks, betas, s0, i as nat);
        }
        crate::mmcs::lemma_log2_of(stop_bits as nat);
        assert forall|t: int| 0 <= t < folded@.len() implies #[trigger] views_of(folded@)[rev_bits(
            t as nat,
            stop_bits as nat,
        ) as int] == epoly_eval(
            views_of(coeffs@),
            efrom(fpow(two_adic_gen(stop_bits as nat), t as nat)),
        ) by {
            crate::bits::lemma_rev_bits_bound(t as nat, stop_bits as nat);
            assert(reversed@[t] == folded@[rev_bits(t as nat, stop_bits as nat) as int]);
            assert(reversed@[t]@ == epoly_eval(
                views_of(coeffs@),
                efrom(fpow(two_adic_gen(crate::mmcs::log2_of(reversed@.len())), t as nat)),
            ));
        }
    }
    Ok(
        CommitPhaseResult {
            commits,
            data,
            final_poly: coeffs,
            betas: Ghost(betas),
            final_word: Ghost(views_of(folded@)),
        },
    )
}

/// The position whose value folds together with position `x`: its
/// neighbour with the lowest bit flipped.
pub open spec fn sib(x: int) -> int {
    if x % 2 == 0 {
        x + 1
    } else {
        x - 1
    }
}

/// Answers one query: for every fold round, opens the committed pair that
/// the query index touches and records the folding partner's value.
pub fn answer_query(
    data: &Vec<RoundProverData>,
    index: usize,
    Ghost(k0): Ghost<nat>,
) -> (r: Vec<CommitPhaseProofStep>)
    requires
        k0 <= 27,
        data@.len() <= k0,
        index < pow2(k0),
        forall|i: int|
            0 <= i < data@.len() ==> (#[trigger] data@[i]).word@.len() == pow2((k0 - i) as nat),
        forall|i: int| 0 <= i < data@.len() ==> wf_ext_seq((#[trigger] data@[i]).word@),
    ensures
        r@.len() == data@.len(),
        forall|i: int|
            0 <= i < data@.len() ==> (#[trigger] r@[i]).sibling_value == data@[i].word@[sib(
                (index as int) / (pow2(i as nat) as int),
            )],
        forall|i: int| 0 <= i < data@.len() ==> (#[trigger] r@[i]).sibling_value.wf(),
{
    let mut r: Vec<CommitPhaseProofStep> = Vec::new();
    let mut cur = index;
    let mut i: usize = 0;
    proof {
        assert(pow2(0) == 1) by {
            vstd::arithmetic::power2::lemma2_to64();
        };
        assert(index as int / 1 == index as int);
    }
    while i < data.len()
        invariant
            k0 <= 27,
            data@.len() <= k0,
            index < pow2(k0),
            forall|t: int|
                0 <= t < data@.len() ==> (#[trigger] data@[t]).word@.len() == pow2(
                    (k0 - t) as nat,
                ),
            forall|t: int| 0 <= t < data@.len() ==> wf_ext_seq((#[trigger] data@[t]).word@),
            i <= data@.len(),
            r@.len() == i,
            cur == (index as int) / (pow2(i as nat) as int),
            forall|t: int|
                0 <= t < i ==> (#[trigger] r@[t]).sibling_value == data@[t].word@[sib(
                    (index as int) / (pow2(t as nat) as int),
                )],
            forall|t: int| 0 <= t < i ==> (#[trigger] r@[t]).sibling_value.wf(),
        decreases data@.len() - i,
    {
        let ghost hbits = (k0 - i) as nat;
        proof {
            lemma_pow2_adds(i as nat, hbits);
            lemma_pow2_pos(i as nat);
            lemma_pow2_pos(hbits);
            assert((index as int) < (pow2(i as nat) as int) * (pow2(hbits) as int));
            vstd::arithmetic::div_mod::lemma_multiply_divide_lt(
                index as int,
                pow2(i as nat) as int,
                pow2(hbits) as int,
            );
            assert(cur < pow2(hbits));
            lemma_pow2_unfold(hbits);
            vstd::arithmetic::div_mod::lemma_fundamental_div_mod(cur as int, 2);
        }
        let pair = cur / 2;
        proof {
            assert(2 * (pair as int) + 1 < pow2(hbits)) by {
                if cur % 2 == 0 {
                    assert(2 * (pair as int) == cur);
                    assert(pow2(hbits) % 2 == 0) by {
                        lemma_pow2_unfold(hbits);
                    };
                    assert(cur as int % 2 == 0);
                    assert(cur + 1 < pow2(hbits)) by {
                        if cur + 1 == pow2(hbits) {
                            assert(pow2(hbits) % 2 == 1);
                        }
                    };
                } else {
                    assert(2 * (pair as int) + 1 == cur);
                }
            };
        }
        let (e0, e1, pf) = round_open(&data[i], pair);
        let s = if cur % 2 == 0 {
            e1
        } else {
            e0
        };
        proof {
            if cur % 2 == 0 {
                assert(sib(cur as int) == 2 * (pair as int) + 1);
            } else {
                assert(sib(cur as int) == 2 * (pair as int));
            }
        }
        r.push(CommitPhaseProofStep { sibling_value: s, opening_proof: pf });
        cur = pair;
        i = i + 1;
        proof {
            vstd::arithmetic::div_mod::lemma_div_denominator(
                index as int,
                pow2((i - 1) as nat) as int,
                2,
            );
            lemma_pow2_unfold(i as nat);
            assert((pow2((i - 1) as nat) as int) * 2 == pow2(i as nat) as int);
        }
    }
    r
}

/// The FRI prover: the commit phase, the proof-of-work grind, the sampling
/// of the query indices, and one answered query per index. Returns the
/// proof together with the sampled indices, so that the caller can open
/// its own input commitments at the same positions.
pub fn prove(
    config: &FriConfig,
    inputs: &Vec<Vec<Ext>>,
    challenger: &mut Challenger,
    Ghost(ks): Ghost<Seq<nat>>,
) -> (r: Result<(FriProof, Vec<usize>), ProverError>)
    requires
        config.wf(),
        old(challenger).wf(),
        wf_inputs(inputs@, ks, *config),
    ensures
        final(challenger).wf(),
        r matches Err(e) ==> e == ProverError::FinalPolyTailNonZero,
        (r is Err) <==> has_high_coeff(
            cp_coeffs(input_views(inputs@), ks, old(challenger).st@, *config),
            pow2(config.log_final_poly_len as nat) as int,
        ),
        r matches Ok(pr) ==> {
            let rounds = ks[0] - (config.log_blowup + config.log_final_poly_len);
            let s0 = old(challenger).st@;
            let s1 = post_commit_state(input_views(inputs@), ks, s0, *config);
            let s2 = post_grind_state(input_views(inputs@), ks, s0, *config);
            &&& forall|i: int|
                0 <= i < rounds ==> views_of(
                    (#[trigger] pr.0.commit_phase_commits@[i]).word@,
                ) == round_chain(input_views(inputs@), ks, s0, i as nat).0
            &&& views_of(pr.0.final_poly@) == cp_coeffs(input_views(inputs@), ks, s0, *config)
            &&& pr.0.pow_witness@ == grind_witness_s(s1)
            &&& squeeze(absorb(s1, pr.0.pow_witness@)) % (
            pow2(config.proof_of_work_bits as nat) as int) == 0
            &&& forall|q: int|
                0 <= q < pr.1@.len() ==> #[trigger] pr.1@[q] == squeeze_n(s2, (q + 1) as nat) % (
                pow2(ks[0]) as int)
            &&& final(challenger).st@ == squeeze_n(s2, config.num_queries as nat)
            &&& pr.0.commit_phase_commits@.len() == rounds
            &&& pr.0.query_proofs@.len() == config.num_queries
            &&& pr.1@.len() == config.num_queries
            &&& forall|q: int| 0 <= q < pr.1@.len() ==> #[trigger] pr.1@[q] < pow2(ks[0])
            &&& forall|q: int|
                0 <= q < config.num_queries
                    ==> (#[trigger] pr.0.query_proofs@[q]).commit_phase_openings@.len() == rounds
            &&& forall|q: int, i: int|
                0 <= q < config.num_queries && 0 <= i < rounds
                    ==> (#[trigger] pr.0.query_proofs@[q].commit_phase_openings@[i]).sibling_value
                    == pr.0.commit_phase_commits@[i].word@[sib(
                    (pr.1@[q] as int) / (pow2(i as nat) as int),
                )]
            &&& pr.0.final_poly@.len() == pow2(
                (config.log_blowup + config.log_final_poly_len) as nat,
            )
            &&& forall|j: int|
                pow2(config.log_final_poly_len as nat) <= j < pr.0.final_poly@.len()
                    ==> (#[trigger] pr.0.final_poly@[j])@ == crate::ext::ezero()
        },
{
    let ghost s0 = old(challenger).st@;
    let ghost iviews = input_views(inputs@);
    let res = match commit_phase(config, inputs, challenger, Ghost(ks)) {
        Ok(res) => res,
        Err(e) => {
            return Err(e);
        },
    };
    let ghost s1 = post_commit_state(iviews, ks, s0, *config);
    let pow_witness = challenger.grind(config.proof_of_work_bits);
    let ghost s2 = post_grind_state(iviews, ks, s0, *config);
    proof {
        assert(pow_witness@ == grind_witness_s(s1));
        assert(challenger.st@ == s2);
    }
    let first = &inputs[0];
    let log_max = log2_strict(first.len(), Ghost(ks[0]));
    let mut query_indices: Vec<usize> = Vec::new();
    let mut q: usize = 0;
    while q < config.num_queries
        invariant
            config.wf(),
            challenger.wf(),
            log_max == ks[0],
            ks[0] <= 27,
            challenger.st@ == squeeze_n(s2, q as nat),
            q <= config.num_queries,
            query_indices@.len() == q,
            forall|t: int| 0 <= t < q ==> #[trigger] query_indices@[t] < pow2(ks[0]),
            forall|t: int|
                0 <= t < q ==> #[trigger] query_indices@[t] == squeeze_n(s2, (t + 1) as nat) % (
                pow2(ks[0]) as int),
        decreases config.num_queries - q,
    {
        let idx = challenger.sample_bits(log_max);
        query_indices.push(idx);
        q = q + 1;
    }
    let ghost rounds = (ks[0] - (config.log_blowup + config.log_final_poly_len)) as nat;
    let mut query_proofs: Vec<QueryProof> = Vec::new();
    let mut t: usize = 0;
    while t < query_indices.len()
        invariant
            config.wf(),
            ks[0] <= 27,
            challenger.wf(),
            challenger.st@ == squeeze_n(s2, config.num_queries as nat),
            forall|j2: int|
                0 <= j2 < query_indices@.len() ==> #[trigger] query_indices@[j2] == squeeze_n(
                    s2,
                    (j2 + 1) as nat,
                ) % (pow2(ks[0]) as int),
            rounds == ks[0] - (config.log_blowup + config.log_final_poly_len),
            res.data@.len() == rounds,
            forall|i: int|
                0 <= i < res.data@.len() ==> (#[trigger] res.data@[i]).word@.len() == pow2(
                    (ks[0] - i) as nat,
                ),
            forall|i: int| 0 <= i < res.data@.len() ==> wf_ext_seq((#[trigger] res.data@[i]).word@),
            forall|i: int|
                0 <= i < rounds ==> (#[trigger] res.commits@[i]).word@ == res.data@[i].word@,
            res.commits@.len() == rounds,
            query_indices@.len() == config.num_queries,
            forall|j: int| 0 <= j < query_indices@.len() ==> #[trigger] query_indices@[j] < pow2(
                ks[0],
            ),
            t <= query_indices@.len(),
            query_proofs@.len() == t,
            forall|j: int|
                0 <= j < t ==> (#[trigger] query_proofs@[j]).commit_phase_openings@.len() == rounds,
            forall|j: int, i: int|
                0 <= j < t && 0 <= i < rounds
                    ==> (#[trigger] query_proofs@[j].commit_phase_openings@[i]).sibling_value
                    == res.commits@[i].word@[sib(
                    (query_indices@[j] as int) / (pow2(i as nat) as int),
                )],
        decreases query_indices@.len() - t,
    {
        let steps = answer_query(&res.data, query_indices[t], Ghost(ks[0]));
        query_proofs.push(QueryProof { commit_phase_openings: steps });
        t = t + 1;
    }
    Ok(
        (
            FriProof {
                commit_phase_commits: res.commits,
                query_proofs,
                final_poly: res.final_poly,
                pow_witness,
            },
            query_indices,
        ),
    )
}

/// Strict descent carries across any gap.
proof fn lemma_ks_descending(ks: Seq<nat>, a: int, b: int)
    requires
        forall|t: int| 0 <= t && t + 1 < ks.len() ==> #[trigger] ks[t + 1] < ks[t],
        0 <= a < b < ks.len(),
    ensures
        ks[b] < ks[a],
    decreases b - a,
{
    assert(ks[a + 1] < ks[a]);
    if a + 1 < b {
        lemma_ks_descending(ks, a + 1, b);
    }
}

} // verus!
