//! The commitment capability: commits to codewords (for the folding rounds)
//! and to batches of matrices (for the inputs), and opens committed rows by
//! index.
//!
//! The scheme here is the perfectly binding one: a commitment retains the
//! committed data itself, an opening carries no extra evidence, and
//! verification compares the claimed row against the commitment. The FRI
//! core and the commitment scheme on top of it rely only on the contracts
//! stated here, which are those of a multi-matrix commitment scheme.

use vstd::prelude::*;
use vstd::arithmetic::power2::{lemma_pow2_strictly_increases, pow2};
use crate::bits::{log2_strict, pow2_usize};
use crate::ext::Ext;
use crate::field::Fp;
use crate::matrix::FpMat;

verus! {

/// The exponent of a power of two.
pub open spec fn log2_of(n: nat) -> nat {
    choose|k: nat| pow2(k) == n
}

/// `log2_of` recovers the exponent of any power of two.
pub proof fn lemma_log2_of(k: nat)
    ensures
        log2_of(pow2(k)) == k,
{
    let k2 = log2_of(pow2(k));
    assert(pow2(k2) == pow2(k));
    if k2 < k {
        lemma_pow2_strictly_increases(k2, k);
    } else if k < k2 {
        lemma_pow2_strictly_increases(k, k2);
    }
}

/// Matrix dimensions, as claimed by a verifier.
#[derive(Clone, Copy, PartialEq, Eq, Structural, Debug)]
pub struct Dims {
    pub width: usize,
    pub height: usize,
}

/// A commitment to one folding-round codeword.
#[derive(Clone, Debug)]
pub struct RoundCommitment {
    pub word: Vec<Ext>,
}

/// The prover-side retained state for one committed codeword.
#[derive(Clone, Debug)]
pub struct RoundProverData {
    pub word: Vec<Ext>,
}

/// The inclusion evidence for one opened codeword pair. The perfectly
/// binding scheme needs none beyond the values themselves.
#[derive(Clone, Copy, PartialEq, Eq, Structural, Debug)]
pub struct RoundOpeningProof {}

/// All entries of an extension slice are reduced.
pub open spec fn wf_ext_seq(s: Seq<Ext>) -> bool {
    forall|i: int| 0 <= i < s.len() ==> (#[trigger] s[i]).wf()
}

/// Copies an extension slice.
pub fn copy_ext_vec(xs: &Vec<Ext>) -> (r: Vec<Ext>)
    ensures
        r@ == xs@,
{
    let mut r: Vec<Ext> = Vec::new();
    let mut i: usize = 0;
    while i < xs.len()
        invariant
            i <= xs@.len(),
            r@ == xs@.take(i as int),
        decreases xs@.len() - i,
    {
        proof {
            assert(xs@.take(i + 1) =~= xs@.take(i as int).push(xs@[i as int]));
        }
        r.push(xs[i]);
        i = i + 1;
    }
    proof {
        assert(xs@.take(xs@.len() as int) =~= xs@);
    }
    r
}

/// Commits to one codeword, packed as rows of two adjacent entries.
pub fn round_commit(codeword: &Vec<Ext>) -> (r: (RoundCommitment, RoundProverData))
    ensures
        r.0.word@ == codeword@,
        r.1.word@ == codeword@,
{
    let c = RoundCommitment { word: copy_ext_vec(codeword) };
    let d = RoundProverData { word: copy_ext_vec(codeword) };
    (c, d)
}

/// Opens the pair of entries committed as row `pair_index`.
pub fn round_open(data: &RoundProverData, pair_index: usize) -> (r: (Ext, Ext, RoundOpeningProof))
    requires
        2 * pair_index + 1 < data.word@.len(),
    ensures
        r.0 == data.word@[2 * pair_index as int],
        r.1 == data.word@[2 * pair_index as int + 1],
{
    let n = data.word.len();
    proof {
        assert(2 * (pair_index as int) + 1 < n as int);
    }
    (data.word[2 * pair_index], data.word[2 * pair_index + 1], RoundOpeningProof {})
}

/// Checks an opened pair against a commitment: the claimed height must be
/// the committed one, the index in range, and the two values equal to the
/// committed entries.
pub fn round_verify(
    commit: &RoundCommitment,
    pair_count: usize,
    pair_index: usize,
    e0: Ext,
    e1: Ext,
    _proof: &RoundOpeningProof,
) -> (r: bool)
    ensures
        r <==> {
            &&& commit.word@.len() == 2 * pair_count
            &&& pair_index < pair_count
            &&& commit.word@[2 * pair_index as int] == e0
            &&& commit.word@[2 * pair_index as int + 1] == e1
        },
{
    let n = commit.word.len();
    if n % 2 != 0 || n / 2 != pair_count || pair_index >= pair_count {
        proof {
            vstd::arithmetic::div_mod::lemma_fundamental_div_mod(n as int, 2);
        }
        return false;
    }
    proof {
        vstd::arithmetic::div_mod::lemma_fundamental_div_mod(n as int, 2);
    }
    let c0 = commit.word[2 * pair_index];
    let c1 = commit.word[2 * pair_index + 1];
    c0 == e0 && c1 == e1
}

/// A commitment to a batch of matrices.
#[derive(Clone, Debug)]
pub struct BatchCommitment {
    pub mats: Vec<FpMat>,
}

/// The prover-side retained state for a committed batch.
#[derive(Clone, Debug)]
pub struct BatchProverData {
    pub mats: Vec<FpMat>,
}

/// The inclusion evidence for one opened batch row. The perfectly binding
/// scheme needs none beyond the values themselves.
#[derive(Clone, Copy, PartialEq, Eq, Structural, Debug)]
pub struct BatchOpeningProof {}

/// The matrix's height is a power of two within the machine's range.
pub open spec fn pow2_height(m: FpMat) -> bool {
    exists|k: nat| k < 30 && #[trigger] pow2(k) == m.h()
}

/// A batch the capability accepts: nonempty, well-formed matrices whose
/// heights are powers of two.
pub open spec fn wf_batch(mats: Seq<FpMat>) -> bool {
    &&& mats.len() >= 1
    &&& forall|m: int| 0 <= m < mats.len() ==> (#[trigger] mats[m]).wf()
    &&& forall|m: int| 0 <= m < mats.len() ==> pow2_height(#[trigger] mats[m])
}

/// The largest height in a batch.
pub open spec fn batch_max_h(mats: Seq<FpMat>) -> int
    decreases mats.len(),
{
    if mats.len() == 0 {
        0
    } else if batch_max_h(mats.drop_last()) >= mats.last().h() {
        batch_max_h(mats.drop_last())
    } else {
        mats.last().h()
    }
}

/// A nonempty batch's largest height is one of its heights.
pub proof fn lemma_batch_max_h_witness(mats: Seq<FpMat>)
    requires
        mats.len() >= 1,
        forall|m: int| 0 <= m < mats.len() ==> (#[trigger] mats[m]).wf(),
    ensures
        exists|m: int| 0 <= m < mats.len() && batch_max_h(mats) == (#[trigger] mats[m]).h(),
    decreases mats.len(),
{
    if mats.len() == 1 {
        assert(mats.drop_last().len() == 0);
        assert(batch_max_h(mats.drop_last()) == 0);
        assert(mats.last() == mats[0]);
        assert(mats[0].h() >= 0) by {
            vstd::arithmetic::div_mod::lemma_div_pos_is_pos(
                mats[0].values@.len() as int,
                mats[0].width as int,
            );
        };
        assert(batch_max_h(mats) == mats[0].h());
    } else if batch_max_h(mats.drop_last()) >= mats.last().h() {
        lemma_batch_max_h_witness(mats.drop_last());
        let m = choose|m: int|
            0 <= m < mats.drop_last().len() && batch_max_h(mats.drop_last()) == (#[trigger] mats.drop_last()[m]).h();
        assert(mats[m].h() == batch_max_h(mats));
    } else {
        assert(batch_max_h(mats) == mats[mats.len() - 1].h());
    }
}

/// Every height in a batch is at most the largest.
pub proof fn lemma_batch_max_h_ge(mats: Seq<FpMat>, m: int)
    requires
        0 <= m < mats.len(),
    ensures
        mats[m].h() <= batch_max_h(mats),
    decreases mats.len(),
{
    if m < mats.len() - 1 {
        lemma_batch_max_h_ge(mats.drop_last(), m);
    }
}

/// The row of a matrix of height `h` that a batch opening at `index`
/// touches, when the batch's largest height is `hmax`.
pub open spec fn open_idx(index: int, hmax: int, h: int) -> int {
    index / (pow2((log2_of(hmax as nat) - log2_of(h as nat)) as nat) as int)
}

/// Copies a base-field slice.
pub fn copy_fp_vec(xs: &Vec<Fp>) -> (r: Vec<Fp>)
    ensures
        r@ == xs@,
{
    let mut r: Vec<Fp> = Vec::new();
    let mut i: usize = 0;
    while i < xs.len()
        invariant
            i <= xs@.len(),
            r@ == xs@.take(i as int),
        decreases xs@.len() - i,
    {
        proof {
            assert(xs@.take(i + 1) =~= xs@.take(i as int).push(xs@[i as int]));
        }
        r.push(xs[i]);
        i = i + 1;
    }
    proof {
        assert(xs@.take(xs@.len() as int) =~= xs@);
    }
    r
}

/// Two batches hold the same matrices, entry for entry.
pub open spec fn mats_equiv(a: Seq<FpMat>, b: Seq<FpMat>) -> bool {
    &&& a.len() == b.len()
    &&& forall|m: int|
        0 <= m < a.len() ==> (#[trigger] a[m]).width == b[m].width && a[m].values@ == b[m].values@
}

/// Copies a matrix.
pub fn copy_fp_mat(m: &FpMat) -> (r: FpMat)
    ensures
        r.width == m.width,
        r.values@ == m.values@,
{
    FpMat { values: copy_fp_vec(&m.values), width: m.width }
}

/// Copies a batch of matrices.
pub fn copy_fp_mats(ms: &Vec<FpMat>) -> (r: Vec<FpMat>)
    ensures
        mats_equiv(r@, ms@),
{
    let mut r: Vec<FpMat> = Vec::new();
    let mut i: usize = 0;
    while i < ms.len()
        invariant
            i <= ms@.len(),
            r@.len() == i,
            mats_equiv(r@, ms@.take(i as int)),
        decreases ms@.len() - i,
    {
        let m = copy_fp_mat(&ms[i]);
        r.push(m);
        i = i + 1;
    }
    r
}

/// Commits to a batch of matrices. The retained prover data holds the
/// batch itself; the commitment holds an equal copy.
pub fn batch_commit(mats: Vec<FpMat>) -> (r: (BatchCommitment, BatchProverData))
    ensures
        r.1.mats@ == mats@,
        mats_equiv(r.0.mats@, mats@),
{
    let c = BatchCommitment { mats: copy_fp_mats(&mats) };
    (c, BatchProverData { mats })
}

/// The largest height in a batch.
pub fn batch_max_height(mats: &Vec<FpMat>) -> (r: usize)
    requires
        forall|m: int| 0 <= m < mats@.len() ==> (#[trigger] mats@[m]).wf(),
    ensures
        r == batch_max_h(mats@),
{
    let mut r: usize = 0;
    let mut i: usize = 0;
    while i < mats.len()
        invariant
            i <= mats@.len(),
            forall|m: int| 0 <= m < mats@.len() ==> (#[trigger] mats@[m]).wf(),
            r == batch_max_h(mats@.take(i as int)),
        decreases mats@.len() - i,
    {
        proof {
            assert(mats@.take(i + 1).drop_last() =~= mats@.take(i as int));
            assert(mats@.take(i + 1).last() == mats@[i as int]);
        }
        let h = mats[i].height();
        if h > r {
            r = h;
        }
        i = i + 1;
    }
    proof {
        assert(mats@.take(mats@.len() as int) =~= mats@);
    }
    r
}

/// Opens, for every matrix of a committed batch, its row under a global
/// query index: a matrix of height `h` in a batch of largest height `hmax`
/// is opened at `index` shifted down by the difference of the exponents.
pub fn batch_open(data: &BatchProverData, index: usize) -> (r: (Vec<Vec<Fp>>, BatchOpeningProof))
    requires
        wf_batch(data.mats@),
        index < batch_max_h(data.mats@),
    ensures
        r.0@.len() == data.mats@.len(),
        forall|m: int|
            0 <= m < data.mats@.len() ==> (#[trigger] r.0@[m])@.len() == data.mats@[m].width,
        forall|m: int, c: int|
            0 <= m < data.mats@.len() && 0 <= c < data.mats@[m].width ==> #[trigger] r.0@[m]@[c]
                == data.mats@[m].entry(
                open_idx(index as int, batch_max_h(data.mats@), data.mats@[m].h()),
                c,
            ),
{
    let ghost hmax = batch_max_h(data.mats@);
    let max_height = batch_max_height(&data.mats);
    proof {
        lemma_batch_max_h_witness(data.mats@);
    }
    let ghost kmax = choose|k: nat| k < 30 && pow2(k) == hmax;
    proof {
        let mw = choose|m: int|
            0 <= m < data.mats@.len() && hmax == (#[trigger] data.mats@[m]).h();
        let kw = choose|k: nat| k < 30 && data.mats@[mw].h() == pow2(k);
        assert(kw < 30 && pow2(kw) == hmax);
        assert(pow2(kmax) == hmax && kmax < 30);
        lemma_log2_of(kmax);
    }
    let log_max = log2_strict(max_height, Ghost(kmax));
    let mut out: Vec<Vec<Fp>> = Vec::new();
    let mut m: usize = 0;
    while m < data.mats.len()
        invariant
            wf_batch(data.mats@),
            index < hmax,
            hmax == batch_max_h(data.mats@),
            pow2(kmax) == hmax,
            kmax < 30,
            log_max == kmax,
            log_max == log2_of(hmax as nat),
            m <= data.mats@.len(),
            out@.len() == m,
            forall|j: int|
                0 <= j < m ==> (#[trigger] out@[j])@.len() == data.mats@[j].width,
            forall|j: int, c: int|
                0 <= j < m && 0 <= c < data.mats@[j].width ==> #[trigger] out@[j]@[c]
                    == data.mats@[j].entry(
                    open_idx(index as int, hmax, data.mats@[j].h()),
                    c,
                ),
        decreases data.mats@.len() - m,
    {
        let ghost km = choose|k: nat| k < 30 && #[trigger] pow2(k) == data.mats@[m as int].h();
        proof {
            lemma_batch_max_h_ge(data.mats@, m as int);
            if km > kmax {
                lemma_pow2_strictly_increases(kmax, km);
            }
            lemma_log2_of(km);
            vstd::arithmetic::power2::lemma_pow2_adds((kmax - km) as nat, km);
            vstd::arithmetic::power2::lemma_pow2_pos((kmax - km) as nat);
            assert((index as int) < (pow2((kmax - km) as nat) as int) * (pow2(km) as int));
            vstd::arithmetic::div_mod::lemma_multiply_divide_lt(
                index as int,
                pow2((kmax - km) as nat) as int,
                pow2(km) as int,
            );
        }
        let mat = &data.mats[m];
        let h = mat.height();
        let log_h = log2_strict(h, Ghost(km));
        let denom = pow2_usize(log_max - log_h);
        let row_idx = index / denom;
        let row = mat.row(row_idx);
        proof {
            assert(forall|c: int|
                0 <= c < data.mats@[m as int].width ==> #[trigger] row@[c] == data.mats@[
                    m as int
                ].entry(open_idx(index as int, hmax, data.mats@[m as int].h()), c));
        }
        out.push(row);
        m = m + 1;
    }
    (out, BatchOpeningProof {})
}

/// An opened batch row is accepted exactly when the claimed dimensions are
/// the committed ones, the index is in range, and every value equals the
/// committed entry under the height-scaled index.
pub open spec fn batch_ok(
    mats: Seq<FpMat>,
    dims: Seq<Dims>,
    index: int,
    rows: Seq<Seq<Fp>>,
) -> bool {
    &&& dims.len() == mats.len()
    &&& rows.len() == mats.len()
    &&& 0 <= index < batch_max_h(mats)
    &&& forall|m: int|
        0 <= m < mats.len() ==> (#[trigger] dims[m]).width == mats[m].width && dims[m].height
            == mats[m].h()
    &&& forall|m: int| 0 <= m < mats.len() ==> (#[trigger] rows[m]).len() == mats[m].width
    &&& forall|m: int, c: int|
        0 <= m < mats.len() && 0 <= c < mats[m].width ==> #[trigger] rows[m][c] == mats[m].entry(
            open_idx(index, batch_max_h(mats), mats[m].h()),
            c,
        )
}

/// Checks an opened batch row against a commitment.
pub fn batch_verify(
    commit: &BatchCommitment,
    dims: &Vec<Dims>,
    index: usize,
    rows: &Vec<Vec<Fp>>,
    _proof: &BatchOpeningProof,
) -> (r: bool)
    requires
        wf_batch(commit.mats@),
    ensures
        r <==> batch_ok(commit.mats@, dims@, index as int, rows@.map_values(|v: Vec<Fp>| v@)),
{
    let ghost mats = commit.mats@;
    let ghost rview = rows@.map_values(|v: Vec<Fp>| v@);
    let ghost hmax = batch_max_h(mats);
    let n = commit.mats.len();
    if dims.len() != n || rows.len() != n {
        return false;
    }
    let max_height = batch_max_height(&commit.mats);
    if index >= max_height {
        return false;
    }
    proof {
        lemma_batch_max_h_witness(mats);
    }
    let ghost kmax = choose|k: nat| k < 30 && pow2(k) == hmax;
    proof {
        let mw = choose|m: int| 0 <= m < mats.len() && hmax == (#[trigger] mats[m]).h();
        let kw = choose|k: nat| k < 30 && #[trigger] pow2(k) == mats[mw].h();
        assert(kw < 30 && pow2(kw) == hmax);
        assert(pow2(kmax) == hmax && kmax < 30);
        lemma_log2_of(kmax);
    }
    let log_max = log2_strict(max_height, Ghost(kmax));
    let mut m: usize = 0;
    while m < n
        invariant
            wf_batch(mats),
            mats == commit.mats@,
            rview == rows@.map_values(|v: Vec<Fp>| v@),
            dims@.len() == n,
            rows@.len() == n,
            n == mats.len(),
            index < hmax,
            hmax == batch_max_h(mats),
            pow2(kmax) == hmax,
            kmax < 30,
            log_max == kmax,
            log_max == log2_of(hmax as nat),
            m <= n,
            forall|j: int|
                0 <= j < m ==> (#[trigger] dims@[j]).width == mats[j].width && dims@[j].height
                    == mats[j].h(),
            forall|j: int| 0 <= j < m ==> (#[trigger] rview[j]).len() == mats[j].width,
            forall|j: int, c: int|
                0 <= j < m && 0 <= c < mats[j].width ==> #[trigger] rview[j][c] == mats[j].entry(
                    open_idx(index as int, hmax, mats[j].h()),
                    c,
                ),
        decreases n - m,
    {
        let mat = &commit.mats[m];
        let h = mat.height();
        let dm = dims[m];
        if dm.width != mat.width() || dm.height != h {
            proof {
                assert(!((#[trigger] dims@[m as int]).width == mats[m as int].width
                    && dims@[m as int].height == mats[m as int].h()));
            }
            return false;
        }
        let ghost km = choose|k: nat| k < 30 && #[trigger] pow2(k) == mats[m as int].h();
        proof {
            lemma_batch_max_h_ge(mats, m as int);
            if km > kmax {
                lemma_pow2_strictly_increases(kmax, km);
            }
            lemma_log2_of(km);
            vstd::arithmetic::power2::lemma_pow2_adds((kmax - km) as nat, km);
            vstd::arithmetic::power2::lemma_pow2_pos((kmax - km) as nat);
            assert((index as int) < (pow2((kmax - km) as nat) as int) * (pow2(km) as int));
            vstd::arithmetic::div_mod::lemma_multiply_divide_lt(
                index as int,
                pow2((kmax - km) as nat) as int,
                pow2(km) as int,
            );
        }
        let log_h = log2_strict(h, Ghost(km));
        let denom = pow2_usize(log_max - log_h);
        let row_idx = index / denom;
        let row = &rows[m];
        if row.len() != mat.width() {
            proof {
                assert(rview[m as int] == rows@[m as int]@);
                assert(rview[m as int].len() != mats[m as int].width);
            }
            return false;
        }
        let mut c: usize = 0;
        while c < row.len()
            invariant
                wf_batch(mats),
                mats == commit.mats@,
                rview == rows@.map_values(|v: Vec<Fp>| v@),
                m < n,
                n == mats.len(),
                rows@.len() == n,
                mat == mats[m as int],
                row == rows@[m as int],
                row@.len() == mats[m as int].width,
                row_idx == open_idx(index as int, hmax, mats[m as int].h()),
                row_idx < mats[m as int].h(),
                hmax == batch_max_h(mats),
                c <= row@.len(),
                forall|k: int|
                    0 <= k < c ==> #[trigger] rview[m as int][k] == mats[m as int].entry(
                        open_idx(index as int, hmax, mats[m as int].h()),
                        k,
                    ),
            decreases row@.len() - c,
        {
            let expected = mat.get(row_idx, c);
            if row[c] != expected {
                proof {
                    assert(rview[m as int][c as int] != mats[m as int].entry(
                        open_idx(index as int, hmax, mats[m as int].h()),
                        c as int,
                    ));
                }
                return false;
            }
            c = c + 1;
        }
        m = m + 1;
    }
    true
}

} // verus!
