//! The selector: for every candidate guess, simulate its coloring against
//! every surviving target, count how many candidates would survive the
//! resulting constraint, and pick the guess minimising the expected
//! survivor count.

use vstd::prelude::*;
use vstd::arithmetic::mul::lemma_mul_upper_bound;
use rayon::iter::{IndexedParallelIterator, IntoParallelIterator, ParallelIterator};
use crate::color::{
    all_red, color_seq, lemma_pow3_mono, lemma_state_id_injective, pow3, state_id_spec,
    ResultColor, ResultState,
};
use crate::letter_mask::LetterMask;
use crate::mask::{
    match_count, match_count_upto, match_spec, update_counts_spec, update_masks_spec,
    FilterResult, LetterBudget, Mask, MaskError,
};
use crate::word::{uniform_len, wf_dico};

verus! {

/// Survivors of the dictionary once the constraint absorbs the colors `cv`
/// of guess `g`.
pub open spec fn k_of(
    masks: Seq<LetterMask>,
    counts: Seq<LetterBudget>,
    dico: Seq<Vec<u8>>,
    g: Seq<u8>,
    cv: Seq<ResultColor>,
) -> nat {
    match_count(update_masks_spec(masks, counts, g, cv), update_counts_spec(counts, g, cv), dico)
}

/// Whether a simulated target contributes to the average: it does when more
/// than one candidate would survive, or when exactly one survives and the
/// guess was the target itself.
pub open spec fn counted(k: nat, cv: Seq<ResultColor>) -> bool {
    k > 1 || (k == 1 && all_red(cv))
}

/// Sum of survivor counts of guess `g` over the counted surviving targets
/// among the first `m` dictionary words.
pub open spec fn score_sum_upto(
    masks: Seq<LetterMask>,
    counts: Seq<LetterBudget>,
    dico: Seq<Vec<u8>>,
    g: Seq<u8>,
    m: int,
) -> nat
    decreases m,
{
    if m <= 0 {
        0
    } else {
        let prev = score_sum_upto(masks, counts, dico, g, m - 1);
        let t = dico[m - 1]@;
        let cv = color_seq(g, t);
        if match_spec(masks, counts, t) && counted(k_of(masks, counts, dico, g, cv), cv) {
            prev + k_of(masks, counts, dico, g, cv)
        } else {
            prev
        }
    }
}

/// Number of counted surviving targets of guess `g` among the first `m`
/// dictionary words.
pub open spec fn score_cnt_upto(
    masks: Seq<LetterMask>,
    counts: Seq<LetterBudget>,
    dico: Seq<Vec<u8>>,
    g: Seq<u8>,
    m: int,
) -> nat
    decreases m,
{
    if m <= 0 {
        0
    } else {
        let prev = score_cnt_upto(masks, counts, dico, g, m - 1);
        let t = dico[m - 1]@;
        let cv = color_seq(g, t);
        if match_spec(masks, counts, t) && counted(k_of(masks, counts, dico, g, cv), cv) {
            prev + 1
        } else {
            prev
        }
    }
}

/// The score of candidate `i`: summed survivor counts over its counted
/// targets.
pub open spec fn cand_sum(
    masks: Seq<LetterMask>,
    counts: Seq<LetterBudget>,
    dico: Seq<Vec<u8>>,
    i: int,
) -> nat {
    score_sum_upto(masks, counts, dico, dico[i]@, dico.len() as int)
}

/// The number of counted targets of candidate `i`.
pub open spec fn cand_cnt(
    masks: Seq<LetterMask>,
    counts: Seq<LetterBudget>,
    dico: Seq<Vec<u8>>,
    i: int,
) -> nat {
    score_cnt_upto(masks, counts, dico, dico[i]@, dico.len() as int)
}

/// The best candidate among the first `m`: the one of smallest expected
/// survivor count `sum / cnt`, compared exactly as rationals, earlier
/// candidates winning ties.  Candidates with no counted target are skipped.
pub open spec fn best_upto(
    masks: Seq<LetterMask>,
    counts: Seq<LetterBudget>,
    dico: Seq<Vec<u8>>,
    m: int,
) -> Option<(int, int, int)>
    decreases m,
{
    if m <= 0 {
        None
    } else {
        let prev = best_upto(masks, counts, dico, m - 1);
        let s = cand_sum(masks, counts, dico, m - 1) as int;
        let c = cand_cnt(masks, counts, dico, m - 1) as int;
        if c == 0 {
            prev
        } else {
            match prev {
                None => Some((m - 1, s, c)),
                Some((bi, bs, bc)) => if s * bc < bs * c {
                    Some((m - 1, s, c))
                } else {
                    prev
                },
            }
        }
    }
}

pub proof fn lemma_match_count_le(
    masks: Seq<LetterMask>,
    counts: Seq<LetterBudget>,
    dico: Seq<Vec<u8>>,
    k: int,
)
    ensures
        match_count_upto(masks, counts, dico, k) <= (if k <= 0 {
            0int
        } else {
            k
        }),
    decreases k,
{
    if k > 0 {
        lemma_match_count_le(masks, counts, dico, k - 1);
    }
}

/// The expected-progress score of one candidate guess, as the pair of the
/// summed survivor counts and the number of counted targets.
#[derive(Clone, Copy, Debug, PartialEq, Eq, Structural)]
pub struct Score {
    pub sum: usize,
    pub count: usize,
}

impl Mask {
    /// Score the candidate guess at `idx`: for each surviving target,
    /// simulate the coloring, absorb it into a working copy of the
    /// constraint, and count the candidates that would survive.  Scores are
    /// memoised by the base-3 key of the color vector: two targets that
    /// color the guess identically leave identical constraints.
    pub fn score_candidate(&self, dico: &Vec<Vec<u8>>, valid: &Vec<bool>, idx: usize) -> (r: (
        usize,
        usize,
    ))
        requires
            self.wf(),
            wf_dico(dico@),
            uniform_len(dico@, self.mask@.len() as int),
            self.mask@.len() <= 9,
            dico@.len() <= 0xFFFF,
            valid@.len() == dico@.len(),
            forall|j: int|
                0 <= j < dico@.len() ==> valid@[j] == match_spec(
                    self.mask@,
                    self.count@,
                    (#[trigger] dico@[j])@,
                ),
            idx < dico@.len(),
        ensures
            r.0 == cand_sum(self.mask@, self.count@, dico@, idx as int),
            r.1 == cand_cnt(self.mask@, self.count@, dico@, idx as int),
    {
        let w = self.mask.len();
        let n = dico.len();
        let gs: &[u8] = dico[idx].as_slice();
        let ghost g = gs@;
        let mut res = ResultState::new(w);
        let mut work = self.clone();

        // The memo table, one slot per possible color vector.
        proof {
            reveal_with_fuel(pow3, 10);
            lemma_pow3_mono(w as int, 9);
        }
        let mut p: usize = 1;
        let mut e: usize = 0;
        while e < w
            invariant
                e <= w <= 9,
                p == pow3(e as int),
                pow3(w as int) <= 19683,
            decreases w - e,
        {
            proof {
                lemma_pow3_mono(e as int + 1, w as int);
            }
            p = p * 3;
            e = e + 1;
        }
        let mut memo: Vec<usize> = Vec::new();
        let mut s0: usize = 0;
        while s0 < p
            invariant
                s0 <= p,
                memo@.len() == s0,
                forall|s: int| 0 <= s < s0 ==> memo@[s] == usize::MAX,
            decreases p - s0,
        {
            memo.push(usize::MAX);
            s0 = s0 + 1;
        }

        let mut sum: usize = 0;
        let mut cnt: usize = 0;
        let mut ti: usize = 0;
        while ti < n
            invariant
                ti <= n,
                n == dico@.len() <= 0xFFFF,
                self.wf(),
                wf_dico(dico@),
                uniform_len(dico@, self.mask@.len() as int),
                w == self.mask@.len() <= 9,
                idx < n,
                g == dico@[idx as int]@,
                gs@ == g,
                valid@.len() == n,
                forall|j: int|
                    0 <= j < n ==> valid@[j] == match_spec(
                        self.mask@,
                        self.count@,
                        (#[trigger] dico@[j])@,
                    ),
                res.state@.len() == w,
                work.mask@ == self.mask@,
                work.count@ == self.count@,
                memo@.len() == p,
                p == pow3(w as int),
                forall|s: int|
                    0 <= s < p && (#[trigger] memo@[s]) != usize::MAX ==> exists|
                        cv: Seq<ResultColor>,
                    |
                        cv.len() == w && state_id_spec(cv) == s && memo@[s] == k_of(
                            self.mask@,
                            self.count@,
                            dico@,
                            g,
                            cv,
                        ),
                sum == score_sum_upto(self.mask@, self.count@, dico@, g, ti as int),
                cnt == score_cnt_upto(self.mask@, self.count@, dico@, g, ti as int),
                sum <= ti * 0xFFFF,
                cnt <= ti,
            decreases n - ti,
        {
            if valid[ti] {
                let ghost t = dico@[ti as int]@;
                let ghost cv = color_seq(g, t);
                match res.update_with(gs, dico[ti].as_slice()) {
                    Ok(()) => {},
                    Err(_) => {
                        proof {
                            assert(false);
                        }
                    },
                }
                let id = res.state_id();
                let k: usize;
                if memo[id] != usize::MAX {
                    k = memo[id];
                    proof {
                        let cv2 = choose|cv2: Seq<ResultColor>|
                            cv2.len() == w && state_id_spec(cv2) == id as int && memo@[id as int]
                                == k_of(self.mask@, self.count@, dico@, g, cv2);
                        lemma_state_id_injective(cv, cv2, w as int);
                        assert(cv =~= cv2);
                    }
                } else {
                    match work.update(gs, &res) {
                        Ok(()) => {},
                        Err(_) => {
                            proof {
                                assert(false);
                            }
                        },
                    }
                    let k0: usize;
                    match work.filter(dico) {
                        FilterResult::Count(kc) => {
                            k0 = kc;
                        },
                        FilterResult::Word(_) => {
                            k0 = 1;
                        },
                        FilterResult::Error(_) => {
                            k0 = 0;
                            proof {
                                assert(false);
                            }
                        },
                    }
                    k = k0;
                    proof {
                        lemma_match_count_le(work.mask@, work.count@, dico@, n as int);
                        assert(k == k_of(self.mask@, self.count@, dico@, g, cv));
                    }
                    memo[id] = k;
                    work.revert_from(self);
                }
                proof {
                    lemma_match_count_le(
                        update_masks_spec(self.mask@, self.count@, g, cv),
                        update_counts_spec(self.count@, g, cv),
                        dico@,
                        n as int,
                    );
                    assert(k <= n);
                }
                let is_all_red = res.complet();
                if k > 1 || (k == 1 && is_all_red) {
                    sum = sum + k;
                    cnt = cnt + 1;
                }
            }
            ti = ti + 1;
        }
        (sum, cnt)
    }
}

/// Relies on rayon's parallel iterator over an index range: `into_par_iter`
/// yields every index once, `map` applies the closure to each, and
/// `collect` into a `Vec` keeps the results in index order (rayon
/// documents this order-preserving collection for indexed parallel
/// iterators).  Each element is therefore exactly what the verified
/// `score_candidate` returns for that index.
#[verifier::external_body]
fn par_candidate_scores(mask: &Mask, dico: &Vec<Vec<u8>>, valid: &Vec<bool>) -> (r: Vec<
    (usize, usize),
>)
    requires
        mask.wf(),
        wf_dico(dico@),
        uniform_len(dico@, mask.mask@.len() as int),
        mask.mask@.len() <= 9,
        dico@.len() <= 0xFFFF,
        valid@.len() == dico@.len(),
        forall|j: int|
            0 <= j < dico@.len() ==> valid@[j] == match_spec(
                mask.mask@,
                mask.count@,
                (#[trigger] dico@[j])@,
            ),
    ensures
        r@.len() == dico@.len(),
        forall|i: int|
            0 <= i < dico@.len() ==> (#[trigger] r@[i]).0 == cand_sum(
                mask.mask@,
                mask.count@,
                dico@,
                i,
            ) && r@[i].1 == cand_cnt(mask.mask@, mask.count@, dico@, i),
{
    (0..dico.len()).into_par_iter().map(|i| mask.score_candidate(dico, valid, i)).collect()
}

impl Mask {
    /// Pick the candidate guess of smallest expected survivor count.  The
    /// candidates are scored independently in parallel and reduced by an
    /// exact rational comparison, ties going to the earlier index, so the
    /// result does not depend on how the work was scheduled.
    pub fn find_best(&self, dico: &Vec<Vec<u8>>) -> (r: Result<(usize, Score), MaskError>)
        requires
            self.wf(),
            wf_dico(dico@),
            self.mask@.len() <= 9,
            dico@.len() <= 0xFFFF,
        ensures
            match r {
                Ok((idx, sc)) => {
                    &&& uniform_len(dico@, self.mask@.len() as int)
                    &&& best_upto(self.mask@, self.count@, dico@, dico@.len() as int) == Some(
                        (idx as int, sc.sum as int, sc.count as int),
                    )
                },
                Err(e) => match e {
                    MaskError::IncompatibleLen(op) => {
                        &&& exists|i: int|
                            0 <= i < dico@.len() && (#[trigger] dico@[i])@.len()
                                != self.mask@.len()
                        &&& op@ == "match_with"@
                    },
                    MaskError::NoCandidates => {
                        &&& uniform_len(dico@, self.mask@.len() as int)
                        &&& best_upto(self.mask@, self.count@, dico@, dico@.len() as int) is None
                    },
                },
            },
    {
        let n = dico.len();
        let mut valid: Vec<bool> = Vec::new();
        let mut i: usize = 0;
        while i < n
            invariant
                i <= n,
                n == dico@.len(),
                self.wf(),
                wf_dico(dico@),
                valid@.len() == i,
                forall|j: int| 0 <= j < i ==> (#[trigger] dico@[j])@.len() == self.mask@.len(),
                forall|j: int|
                    0 <= j < i ==> valid@[j] == match_spec(
                        self.mask@,
                        self.count@,
                        (#[trigger] dico@[j])@,
                    ),
            decreases n - i,
        {
            match self.match_with(dico[i].as_slice()) {
                Ok(b) => valid.push(b),
                Err(e) => {
                    return Err(e);
                },
            }
            i = i + 1;
        }
        let scores = par_candidate_scores(self, dico, &valid);
        let mut have: bool = false;
        let mut best_i: usize = 0;
        let mut best_s: usize = 0;
        let mut best_c: usize = 0;
        let mut j: usize = 0;
        while j < n
            invariant
                j <= n,
                n == dico@.len(),
                scores@.len() == n,
                forall|l: int|
                    0 <= l < n ==> (#[trigger] scores@[l]).0 == cand_sum(
                        self.mask@,
                        self.count@,
                        dico@,
                        l,
                    ) && scores@[l].1 == cand_cnt(self.mask@, self.count@, dico@, l),
                !have ==> best_upto(self.mask@, self.count@, dico@, j as int) is None,
                have ==> best_upto(self.mask@, self.count@, dico@, j as int) == Some(
                    (best_i as int, best_s as int, best_c as int),
                ),
                have ==> best_i < j,
            decreases n - j,
        {
            let sc = scores[j];
            let s = sc.0;
            let c = sc.1;
            if c > 0 {
                if !have {
                    have = true;
                    best_i = j;
                    best_s = s;
                    best_c = c;
                } else {
                    proof {
                        lemma_mul_upper_bound(
                            s as int,
                            0xFFFF_FFFF_FFFF_FFFFint,
                            best_c as int,
                            0xFFFF_FFFF_FFFF_FFFFint,
                        );
                        lemma_mul_upper_bound(
                            best_s as int,
                            0xFFFF_FFFF_FFFF_FFFFint,
                            c as int,
                            0xFFFF_FFFF_FFFF_FFFFint,
                        );
                    }
                    let lhs: u128 = (s as u128) * (best_c as u128);
                    let rhs: u128 = (best_s as u128) * (c as u128);
                    if lhs < rhs {
                        best_i = j;
                        best_s = s;
                        best_c = c;
                    }
                }
            }
            j = j + 1;
        }
        if have {
            Ok((best_i, Score { sum: best_s, count: best_c }))
        } else {
            Err(MaskError::NoCandidates)
        }
    }
}

/// What [`best_upto`] picks, spelled out: among the first `m` candidates
/// with a counted target, the one of smallest expected survivor count
/// `sum / cnt` (compared exactly, by cross-multiplication), and of those
/// the earliest.  With no such candidate there is no pick.
pub proof fn lemma_best_is_minimal(
    masks: Seq<LetterMask>,
    counts: Seq<LetterBudget>,
    dico: Seq<Vec<u8>>,
    m: int,
)
    ensures
        match best_upto(masks, counts, dico, m) {
            None => forall|j: int| 0 <= j < m ==> cand_cnt(masks, counts, dico, j) == 0,
            Some((bi, bs, bc)) => {
                &&& 0 <= bi < m
                &&& bs == cand_sum(masks, counts, dico, bi)
                &&& bc == cand_cnt(masks, counts, dico, bi)
                &&& bc > 0
                &&& forall|j: int|
                    0 <= j < m && #[trigger] cand_cnt(masks, counts, dico, j) > 0 ==> bs * (
                    cand_cnt(masks, counts, dico, j) as int) <= (cand_sum(
                        masks,
                        counts,
                        dico,
                        j,
                    ) as int) * bc
                &&& forall|j: int|
                    0 <= j < bi && #[trigger] cand_cnt(masks, counts, dico, j) > 0 ==> bs * (
                    cand_cnt(masks, counts, dico, j) as int) < (cand_sum(
                        masks,
                        counts,
                        dico,
                        j,
                    ) as int) * bc
            },
        },
    decreases m,
{
    if m > 0 {
        lemma_best_is_minimal(masks, counts, dico, m - 1);
        let s = cand_sum(masks, counts, dico, m - 1) as int;
        let c = cand_cnt(masks, counts, dico, m - 1) as int;
        if c > 0 {
            match best_upto(masks, counts, dico, m - 1) {
                None => {
                },
                Some((bi, bs, bc)) => {
                    if s * bc < bs * c {
                        // The new candidate strictly beats the old best,
                        // hence everything the old best was no worse than.
                        assert forall|j: int|
                            0 <= j < m && #[trigger] cand_cnt(masks, counts, dico, j) > 0
                            implies s * (cand_cnt(masks, counts, dico, j) as int) <= (cand_sum(
                            masks,
                            counts,
                            dico,
                            j,
                        ) as int) * c by {
                            if j < m - 1 {
                                let sj = cand_sum(masks, counts, dico, j) as int;
                                let cj = cand_cnt(masks, counts, dico, j) as int;
                                assert(s * cj < sj * c) by (nonlinear_arith)
                                    requires
                                        s * bc < bs * c,
                                        bs * cj <= sj * bc,
                                        bc > 0,
                                        c > 0,
                                        cj > 0,
                                ;
                            }
                        }
                        assert forall|j: int|
                            0 <= j < m - 1 && #[trigger] cand_cnt(masks, counts, dico, j) > 0
                            implies s * (cand_cnt(masks, counts, dico, j) as int) < (cand_sum(
                            masks,
                            counts,
                            dico,
                            j,
                        ) as int) * c by {
                            let sj = cand_sum(masks, counts, dico, j) as int;
                            let cj = cand_cnt(masks, counts, dico, j) as int;
                            assert(s * cj < sj * c) by (nonlinear_arith)
                                requires
                                    s * bc < bs * c,
                                    bs * cj <= sj * bc,
                                    bc > 0,
                                    c > 0,
                                    cj > 0,
                            ;
                        }
                    } else {
                        // The old best is no worse than the new candidate.
                        assert(bs * c <= s * bc);
                    }
                },
            }
        }
    }
}

} // verus!
