//! The constraint accumulated over a game: a [`LetterMask`] per position and
//! a per-letter budget on how many times each letter occurs in the target.

use vstd::prelude::*;
use crate::color::{ResultColor, ResultState};
use crate::letter_mask::{
    lemma_remove_bits, lemma_single_member_unique, lm_bit, lm_count, lm_remove, LetterMask,
};
use crate::word::{occ, occ_upto, wf_word};

verus! {

/// An operation received operands of incompatible lengths (the payload names
/// the operation), or the selector was given no surviving target to average
/// over.
#[derive(Debug)]
pub enum MaskError {
    IncompatibleLen(&'static str),
    NoCandidates,
}

/// What is known of one letter's number of occurrences in the target: a
/// lower bound, or the exact number once the guesses have pinned it down.
#[derive(Clone, Copy, Debug, PartialEq, Eq, Structural)]
pub struct LetterBudget {
    pub exact: bool,
    pub count: usize,
}

/// Guess positions among the first `k` that carry letter `c` and are not
/// colored absent.
pub open spec fn nonblue_upto(g: Seq<u8>, cv: Seq<ResultColor>, c: u8, k: int) -> nat
    decreases k,
{
    if k <= 0 {
        0
    } else {
        nonblue_upto(g, cv, c, k - 1) + (if g[k - 1] == c && cv[k - 1] != ResultColor::Blue {
            1nat
        } else {
            0nat
        })
    }
}

pub open spec fn nonblue(g: Seq<u8>, cv: Seq<ResultColor>, c: u8) -> nat {
    nonblue_upto(g, cv, c, g.len() as int)
}

/// How one guess refines a letter's budget: an exact budget is final; a
/// guess that repeats the letter more often than the target admits pins the
/// budget down exactly; otherwise the lower bound rises to the number of
/// occurrences in the guess.
pub open spec fn budget_next(b: LetterBudget, all: nat, ry: nat) -> LetterBudget {
    if b.exact {
        b
    } else if all > ry {
        LetterBudget { exact: true, count: ry as usize }
    } else if (b.count as nat) < all {
        LetterBudget { exact: false, count: all as usize }
    } else {
        b
    }
}

/// All 26 budgets after absorbing one colored guess.
pub open spec fn update_counts_spec(
    counts: Seq<LetterBudget>,
    g: Seq<u8>,
    cv: Seq<ResultColor>,
) -> Seq<LetterBudget> {
    Seq::new(
        26,
        |c: int| budget_next(counts[c], occ(g, (c + 97) as u8), nonblue(g, cv, (c + 97) as u8)),
    )
}

/// The per-position masks after fixing every exactly-matched position to its
/// guessed letter.
pub open spec fn set_masks_spec(
    masks: Seq<LetterMask>,
    g: Seq<u8>,
    cv: Seq<ResultColor>,
) -> Seq<LetterMask> {
    Seq::new(
        masks.len(),
        |i: int|
            if 0 <= i < g.len() && cv[i] == ResultColor::Red {
                LetterMask(1u32 << ((g[i] - 97) as u32))
            } else {
                masks[i]
            },
    )
}

/// Positions among the first `k` whose mask is the singleton of letter `c`.
pub open spec fn fixed_upto(masks: Seq<LetterMask>, c: u32, k: int) -> nat
    decreases k,
{
    if k <= 0 {
        0
    } else {
        fixed_upto(masks, c, k - 1) + (if lm_count(masks[k - 1].0) == 1 && lm_bit(
            masks[k - 1].0,
            c,
        ) {
            1nat
        } else {
            0nat
        })
    }
}

pub open spec fn fixed_count(masks: Seq<LetterMask>, c: u32) -> nat {
    fixed_upto(masks, c, masks.len() as int)
}

/// A letter whose exact budget is met by the positions already fixed to it:
/// it can appear nowhere else.
pub open spec fn fully_placed(
    counts1: Seq<LetterBudget>,
    masks1: Seq<LetterMask>,
    c: int,
) -> bool {
    counts1[c].exact && fixed_count(masks1, c as u32) == counts1[c].count
}

/// Whether the removal pass takes letter `c` out of position `i`: everywhere
/// for a fully placed letter, else at the positions where the guess put `c`.
pub open spec fn removes_at(
    g: Seq<u8>,
    counts1: Seq<LetterBudget>,
    masks1: Seq<LetterMask>,
    c: int,
    i: int,
) -> bool {
    fully_placed(counts1, masks1, c) || g[i] == (c + 97) as u8
}

/// The mask of position `i` after the removal pass has treated letters
/// `0..k`, starting from `m0`.
pub open spec fn removal_chain(
    m0: u32,
    g: Seq<u8>,
    counts1: Seq<LetterBudget>,
    masks1: Seq<LetterMask>,
    i: int,
    k: int,
) -> u32
    decreases k,
{
    if k <= 0 {
        m0
    } else {
        let p = removal_chain(m0, g, counts1, masks1, i, k - 1);
        if removes_at(g, counts1, masks1, k - 1, i) {
            lm_remove(p, (k - 1) as u32)
        } else {
            p
        }
    }
}

/// A one-letter mask passes the removal pass untouched: removal never
/// empties a set.
pub proof fn lemma_chain_singleton(
    m0: u32,
    g: Seq<u8>,
    counts1: Seq<LetterBudget>,
    masks1: Seq<LetterMask>,
    i: int,
    k: int,
)
    requires
        lm_count(m0) == 1,
    ensures
        removal_chain(m0, g, counts1, masks1, i, k) == m0,
    decreases k,
{
    if k > 0 {
        lemma_chain_singleton(m0, g, counts1, masks1, i, k - 1);
    }
}

/// The removal pass never empties a mask: a non-empty position stays
/// non-empty, whatever letters are aimed at it.
pub proof fn lemma_chain_nonempty(
    m0: u32,
    g: Seq<u8>,
    counts1: Seq<LetterBudget>,
    masks1: Seq<LetterMask>,
    i: int,
    k: int,
)
    requires
        k <= 26,
        lm_count(m0) >= 1,
    ensures
        lm_count(removal_chain(m0, g, counts1, masks1, i, k)) >= 1,
    decreases k,
{
    if k > 0 {
        lemma_chain_nonempty(m0, g, counts1, masks1, i, k - 1);
        let p = removal_chain(m0, g, counts1, masks1, i, k - 1);
        if removes_at(g, counts1, masks1, k - 1, i) {
            crate::letter_mask::lemma_remove_never_empties(p, (k - 1) as u32);
        }
    }
}

/// Absorbing a guess keeps every position satisfiable: no mask of a
/// reachable constraint is ever emptied.
pub proof fn lemma_update_keeps_masks_nonempty(
    masks: Seq<LetterMask>,
    counts: Seq<LetterBudget>,
    g: Seq<u8>,
    cv: Seq<ResultColor>,
)
    requires
        wf_word(g),
        g.len() == masks.len(),
        forall|i: int| 0 <= i < masks.len() ==> lm_count((#[trigger] masks[i]).0) >= 1,
    ensures
        forall|i: int|
            0 <= i < masks.len() ==> lm_count(
                (#[trigger] update_masks_spec(masks, counts, g, cv)[i]).0,
            ) >= 1,
{
    let counts1 = update_counts_spec(counts, g, cv);
    let masks1 = set_masks_spec(masks, g, cv);
    assert forall|i: int| 0 <= i < masks.len() implies lm_count(
        (#[trigger] update_masks_spec(masks, counts, g, cv)[i]).0,
    ) >= 1 by {
        if cv[i] == ResultColor::Red {
            crate::letter_mask::lemma_count_single(((g[i] - 97) as u32));
        }
        lemma_chain_nonempty(masks1[i].0, g, counts1, masks1, i, 26);
    }
}

/// A letter the removal pass does not aim at position `i` survives there.
pub proof fn lemma_chain_keeps_bit(
    m0: u32,
    g: Seq<u8>,
    counts1: Seq<LetterBudget>,
    masks1: Seq<LetterMask>,
    i: int,
    c: u32,
    k: int,
)
    requires
        c < 26,
        k <= 26,
        lm_bit(m0, c),
        !removes_at(g, counts1, masks1, c as int, i),
    ensures
        lm_bit(removal_chain(m0, g, counts1, masks1, i, k), c),
    decreases k,
{
    if k > 0 {
        lemma_chain_keeps_bit(m0, g, counts1, masks1, i, c, k - 1);
        let p = removal_chain(m0, g, counts1, masks1, i, k - 1);
        if removes_at(g, counts1, masks1, k - 1, i) {
            lemma_remove_bits(p, (k - 1) as u32);
        }
    }
}

/// All masks after absorbing one colored guess: exact positions fixed, then
/// the removal pass over every letter.
pub open spec fn update_masks_spec(
    masks: Seq<LetterMask>,
    counts: Seq<LetterBudget>,
    g: Seq<u8>,
    cv: Seq<ResultColor>,
) -> Seq<LetterMask> {
    let counts1 = update_counts_spec(counts, g, cv);
    let masks1 = set_masks_spec(masks, g, cv);
    Seq::new(
        masks.len(),
        |i: int| LetterMask(removal_chain(masks1[i].0, g, counts1, masks1, i, 26)),
    )
}

/// Every position's mask admits the word's letter there.
pub open spec fn masks_admit(masks: Seq<LetterMask>, w: Seq<u8>) -> bool {
    forall|i: int| 0 <= i < w.len() ==> lm_bit((#[trigger] masks[i]).0, (w[i] - 97) as u32)
}

/// The word's letter counts satisfy every budget.
pub open spec fn budgets_admit(counts: Seq<LetterBudget>, w: Seq<u8>) -> bool {
    forall|c: int|
        0 <= c < 26 ==> {
            let b = #[trigger] counts[c];
            if b.exact {
                occ(w, (c + 97) as u8) == b.count
            } else {
                occ(w, (c + 97) as u8) >= b.count
            }
        }
}

/// Whether a word of the right length satisfies the whole constraint.
pub open spec fn match_spec(masks: Seq<LetterMask>, counts: Seq<LetterBudget>, w: Seq<u8>) -> bool {
    masks_admit(masks, w) && budgets_admit(counts, w)
}

/// The masks of a fresh constraint: position 0 the singleton of the starter
/// byte, every other position the full set.
pub open spec fn fresh_masks(start: u8, w: nat) -> Seq<LetterMask> {
    Seq::new(
        w,
        |i: int|
            if i == 0 {
                LetterMask(1u32 << ((start - 97) as u32))
            } else {
                LetterMask(0x03FF_FFFFu32)
            },
    )
}

/// The budgets of a fresh constraint: every letter at least zero times.
pub open spec fn fresh_counts() -> Seq<LetterBudget> {
    Seq::new(26, |c: int| LetterBudget { exact: false, count: 0 })
}

/// Everything learned about the hidden word: a letter set per position and a
/// budget per letter.
pub struct Mask {
    pub mask: Vec<LetterMask>,
    pub count: Vec<LetterBudget>,
}

impl Mask {
    /// The shape every reachable constraint keeps: one budget per letter and
    /// at least the revealed first position.
    pub open spec fn wf(self) -> bool {
        self.count@.len() == 26 && self.mask@.len() >= 1
    }

    /// A fresh constraint: position 0 fixed to the revealed starter letter,
    /// every other position open, all budgets at least zero.  `len` counts
    /// the positions after the starter.
    pub fn new(start: char, len: u8) -> (r: Self)
        requires
            97 <= start as u32 <= 122,
        ensures
            r.wf(),
            r.mask@.len() == len as int + 1,
            r.mask@[0].0 == 1u32 << (((start as u32) - 97) as u32),
            forall|i: int| 1 <= i <= len as int ==> (#[trigger] r.mask@[i]).0 == 0x03FF_FFFFu32,
            forall|c: int|
                0 <= c < 26 ==> (#[trigger] r.count@[c]) == (LetterBudget {
                    exact: false,
                    count: 0,
                }),
            r.mask@ == fresh_masks((start as u32) as u8, len as nat + 1),
            r.count@ == fresh_counts(),
    {
        let n = len as usize + 1;
        let mut mask: Vec<LetterMask> = Vec::new();
        let mut i: usize = 0;
        while i < n
            invariant
                i <= n,
                mask@.len() == i,
                forall|j: int| 0 <= j < i ==> (#[trigger] mask@[j]).0 == 0x03FF_FFFFu32,
            decreases n - i,
        {
            mask.push(LetterMask(0x03FF_FFFF));
            i = i + 1;
        }
        let sb: u8 = (start as u32) as u8;
        let mut first = mask[0];
        first.set(sb);
        mask[0] = first;
        let mut count: Vec<LetterBudget> = Vec::new();
        let mut c: usize = 0;
        while c < 26
            invariant
                c <= 26,
                count@.len() == c,
                forall|j: int|
                    0 <= j < c ==> (#[trigger] count@[j]) == (LetterBudget {
                        exact: false,
                        count: 0,
                    }),
            decreases 26 - c,
        {
            count.push(LetterBudget { exact: false, count: 0 });
            c = c + 1;
        }
        let r = Mask { mask, count };
        proof {
            assert(r.mask@ =~= fresh_masks((start as u32) as u8, len as nat + 1));
            assert(r.count@ =~= fresh_counts());
        }
        r
    }

    /// Whether `word` is still a possible target under this constraint.
    pub fn match_with(&self, word: &[u8]) -> (r: Result<bool, MaskError>)
        requires
            self.wf(),
            wf_word(word@),
        ensures
            match r {
                Ok(b) => word@.len() == self.mask@.len() && b == match_spec(
                    self.mask@,
                    self.count@,
                    word@,
                ),
                Err(e) => {
                    &&& word@.len() != self.mask@.len()
                    &&& e matches MaskError::IncompatibleLen(op) && op@ == "match_with"@
                },
            },
    {
        if self.mask.len() != word.len() {
            return Err(MaskError::IncompatibleLen("match_with"));
        }
        let n = word.len();
        // Per-position letter sets.
        let mut i: usize = 0;
        while i < n
            invariant
                i <= n,
                n == word@.len() == self.mask@.len(),
                self.wf(),
                wf_word(word@),
                forall|j: int|
                    0 <= j < i ==> lm_bit((#[trigger] self.mask@[j]).0, (word@[j] - 97) as u32),
            decreases n - i,
        {
            if !self.mask[i].match_with(word[i]) {
                return Ok(false);
            }
            i = i + 1;
        }
        // Letter counts of the word.
        let mut counts: Vec<usize> = Vec::new();
        let mut c: usize = 0;
        while c < 26
            invariant
                c <= 26,
                counts@.len() == c,
                forall|l: int| 0 <= l < c ==> counts@[l] == 0,
            decreases 26 - c,
        {
            counts.push(0);
            c = c + 1;
        }
        let mut j: usize = 0;
        while j < n
            invariant
                j <= n,
                n == word@.len() == self.mask@.len(),
                self.wf(),
                wf_word(word@),
                masks_admit(self.mask@, word@),
                counts@.len() == 26,
                forall|l: int| 0 <= l < 26 ==> counts@[l] == occ_upto(word@, (l + 97) as u8, j as int),
            decreases n - j,
        {
            let li = (word[j] - 97) as usize;
            proof {
                crate::word::lemma_occ_upto_le(word@, word@[j as int], j as int);
            }
            counts[li] = counts[li] + 1;
            j = j + 1;
        }
        // Budgets.
        let mut c2: usize = 0;
        while c2 < 26
            invariant
                c2 <= 26,
                n == word@.len() == self.mask@.len(),
                self.wf(),
                masks_admit(self.mask@, word@),
                counts@.len() == 26,
                forall|l: int| 0 <= l < 26 ==> counts@[l] == occ(word@, (l + 97) as u8),
                forall|l: int|
                    0 <= l < c2 ==> {
                        let b = #[trigger] self.count@[l];
                        if b.exact {
                            occ(word@, (l + 97) as u8) == b.count
                        } else {
                            occ(word@, (l + 97) as u8) >= b.count
                        }
                    },
            decreases 26 - c2,
        {
            let b = self.count[c2];
            if b.exact {
                if counts[c2] != b.count {
                    proof {
                        assert(self.count@[c2 as int].exact && occ(word@, (c2 + 97) as u8)
                            != self.count@[c2 as int].count);
                        assert(!budgets_admit(self.count@, word@));
                    }
                    return Ok(false);
                }
            } else {
                if counts[c2] < b.count {
                    proof {
                        assert(!self.count@[c2 as int].exact && occ(word@, (c2 + 97) as u8)
                            < self.count@[c2 as int].count);
                        assert(!budgets_admit(self.count@, word@));
                    }
                    return Ok(false);
                }
            }
            c2 = c2 + 1;
        }
        Ok(true)
    }

    /// Absorb one colored guess: refine every letter's budget, fix the
    /// exactly-matched positions, then run the removal pass over all letters.
    pub fn update(&mut self, word: &[u8], result: &ResultState) -> (r: Result<(), MaskError>)
        requires
            old(self).wf(),
            wf_word(word@),
        ensures
            final(self).wf(),
            match r {
                Ok(()) => {
                    &&& old(self).mask@.len() == word@.len() && word@.len() == result.state@.len()
                    &&& final(self).count@ == update_counts_spec(
                        old(self).count@,
                        word@,
                        result.state@,
                    )
                    &&& final(self).mask@ == update_masks_spec(
                        old(self).mask@,
                        old(self).count@,
                        word@,
                        result.state@,
                    )
                },
                Err(e) => {
                    &&& !(old(self).mask@.len() == word@.len() && word@.len()
                        == result.state@.len())
                    &&& final(self).mask@ == old(self).mask@
                    &&& final(self).count@ == old(self).count@
                    &&& e matches MaskError::IncompatibleLen(op) && op@ == "update"@
                },
            },
    {
        if !(self.mask.len() == word.len() && self.mask.len() == result.state.len()) {
            return Err(MaskError::IncompatibleLen("update"));
        }
        let n = word.len();
        let ghost g = word@;
        let ghost cv = result.state@;
        let ghost counts0 = self.count@;
        let ghost masks0 = self.mask@;

        // Occurrence and non-absent counts of the guess, per letter.
        let mut all: Vec<usize> = Vec::new();
        let mut ry: Vec<usize> = Vec::new();
        let mut c0: usize = 0;
        while c0 < 26
            invariant
                c0 <= 26,
                all@.len() == c0,
                ry@.len() == c0,
                forall|l: int| 0 <= l < c0 ==> all@[l] == 0,
                forall|l: int| 0 <= l < c0 ==> ry@[l] == 0,
            decreases 26 - c0,
        {
            all.push(0);
            ry.push(0);
            c0 = c0 + 1;
        }
        let mut i: usize = 0;
        while i < n
            invariant
                i <= n,
                n == g.len() == cv.len(),
                g == word@,
                cv == result.state@,
                wf_word(g),
                all@.len() == 26,
                ry@.len() == 26,
                forall|l: int| 0 <= l < 26 ==> all@[l] == occ_upto(g, (l + 97) as u8, i as int),
                forall|l: int|
                    0 <= l < 26 ==> ry@[l] == nonblue_upto(g, cv, (l + 97) as u8, i as int),
                forall|l: int| 0 <= l < 26 ==> #[trigger] all@[l] <= i,
                forall|l: int| 0 <= l < 26 ==> #[trigger] ry@[l] <= i,
            decreases n - i,
        {
            let li = (word[i] - 97) as usize;
            all[li] = all[li] + 1;
            let rc = result.state[i];
            if !(rc == ResultColor::Blue) {
                ry[li] = ry[li] + 1;
            }
            i = i + 1;
        }

        // Budgets.
        let mut c1: usize = 0;
        while c1 < 26
            invariant
                c1 <= 26,
                n == g.len() == cv.len(),
                g == word@,
                cv == result.state@,
                self.count@.len() == 26,
                self.mask@ == masks0,
                all@.len() == 26,
                ry@.len() == 26,
                forall|l: int| 0 <= l < 26 ==> all@[l] == occ(g, (l + 97) as u8),
                forall|l: int| 0 <= l < 26 ==> ry@[l] == nonblue(g, cv, (l + 97) as u8),
                forall|l: int|
                    0 <= l < c1 ==> #[trigger] self.count@[l] == budget_next(
                        counts0[l],
                        occ(g, (l + 97) as u8),
                        nonblue(g, cv, (l + 97) as u8),
                    ),
                forall|l: int| c1 <= l < 26 ==> #[trigger] self.count@[l] == counts0[l],
            decreases 26 - c1,
        {
            let a = all[c1];
            let ryc = ry[c1];
            let b = self.count[c1];
            if !b.exact {
                if a > ryc {
                    self.count[c1] = LetterBudget { exact: true, count: ryc };
                } else if b.count < a {
                    self.count[c1] = LetterBudget { exact: false, count: a };
                }
            }
            c1 = c1 + 1;
        }
        let ghost counts1 = self.count@;
        proof {
            assert(counts1 =~= update_counts_spec(counts0, g, cv));
        }

        // Fix the exactly-matched positions.
        let mut i1: usize = 0;
        while i1 < n
            invariant
                i1 <= n,
                n == g.len() == cv.len(),
                g == word@,
                cv == result.state@,
                wf_word(g),
                self.count@ == counts1,
                self.mask@.len() == n,
                masks0.len() == n,
                forall|j: int| 0 <= j < i1 ==> self.mask@[j] == set_masks_spec(masks0, g, cv)[j],
                forall|j: int| i1 <= j < n ==> self.mask@[j] == masks0[j],
            decreases n - i1,
        {
            let rc = result.state[i1];
            if rc == ResultColor::Red {
                let mut lm = self.mask[i1];
                lm.set(word[i1]);
                self.mask[i1] = lm;
            }
            i1 = i1 + 1;
        }
        let ghost masks1 = self.mask@;
        proof {
            assert(masks1 =~= set_masks_spec(masks0, g, cv));
        }

        // Count the positions fixed to each letter.
        let mut fixed: Vec<usize> = Vec::new();
        let mut c2: usize = 0;
        while c2 < 26
            invariant
                c2 <= 26,
                fixed@.len() == c2,
                forall|l: int| 0 <= l < c2 ==> fixed@[l] == 0,
            decreases 26 - c2,
        {
            fixed.push(0);
            c2 = c2 + 1;
        }
        let mut i2: usize = 0;
        while i2 < n
            invariant
                i2 <= n,
                self.mask@ == masks1,
                self.count@ == counts1,
                masks1.len() == n,
                fixed@.len() == 26,
                forall|l: int|
                    0 <= l < 26 ==> fixed@[l] == fixed_upto(masks1, l as u32, i2 as int),
                forall|l: int| 0 <= l < 26 ==> #[trigger] fixed@[l] <= i2,
            decreases n - i2,
        {
            let rcopt = self.mask[i2].red_char();
            match rcopt {
                Some(cb) => {
                    let li = (cb - 97) as usize;
                    proof {
                        let m = masks1[i2 as int].0;
                        assert forall|l: int|
                            0 <= l < 26 && l != li as int implies !(lm_count(m) == 1
                            && #[trigger] lm_bit(m, l as u32)) by {
                            if lm_count(m) == 1 && lm_bit(m, l as u32) {
                                lemma_single_member_unique(m, (cb - 97) as u32, l as u32);
                            }
                        }
                    }
                    fixed[li] = fixed[li] + 1;
                },
                None => {},
            }
            i2 = i2 + 1;
        }

        // Removal pass over every letter.
        let mut c3: usize = 0;
        while c3 < 26
            invariant
                c3 <= 26,
                n == g.len() == cv.len(),
                g == word@,
                cv == result.state@,
                wf_word(g),
                self.count@ == counts1,
                counts1.len() == 26,
                self.mask@.len() == n,
                masks1.len() == n,
                fixed@.len() == 26,
                forall|l: int| 0 <= l < 26 ==> fixed@[l] == fixed_upto(masks1, l as u32, n as int),
                forall|j: int|
                    0 <= j < n ==> (#[trigger] self.mask@[j]).0 == removal_chain(
                        masks1[j].0,
                        g,
                        counts1,
                        masks1,
                        j,
                        c3 as int,
                    ),
            decreases 26 - c3,
        {
            let cb: u8 = 97 + c3 as u8;
            let b = self.count[c3];
            let fp: bool = b.exact && fixed[c3] == b.count;
            proof {
                assert(fp == fully_placed(counts1, masks1, c3 as int));
            }
            let mut i3: usize = 0;
            while i3 < n
                invariant
                    i3 <= n,
                    c3 < 26,
                    n == g.len(),
                    g == word@,
                    wf_word(g),
                    cb == 97 + c3 as u8,
                    self.count@ == counts1,
                    self.mask@.len() == n,
                    masks1.len() == n,
                    fp == fully_placed(counts1, masks1, c3 as int),
                    forall|j: int|
                        0 <= j < i3 ==> (#[trigger] self.mask@[j]).0 == removal_chain(
                            masks1[j].0,
                            g,
                            counts1,
                            masks1,
                            j,
                            c3 as int + 1,
                        ),
                    forall|j: int|
                        i3 <= j < n ==> (#[trigger] self.mask@[j]).0 == removal_chain(
                            masks1[j].0,
                            g,
                            counts1,
                            masks1,
                            j,
                            c3 as int,
                        ),
                decreases n - i3,
            {
                proof {
                    assert(removes_at(g, counts1, masks1, c3 as int, i3 as int) == (fp || g[i3 as int]
                        == cb));
                }
                if fp || word[i3] == cb {
                    let mut lm = self.mask[i3];
                    lm.remove(cb);
                    self.mask[i3] = lm;
                } else {
                }
                i3 = i3 + 1;
            }
            c3 = c3 + 1;
        }
        proof {
            assert forall|j: int| 0 <= j < n implies self.mask@[j] == update_masks_spec(
                masks0,
                counts0,
                g,
                cv,
            )[j] by {
                assert(self.mask@[j].0 == removal_chain(masks1[j].0, g, counts1, masks1, j, 26));
            }
            assert(self.mask@ =~= update_masks_spec(masks0, counts0, g, cv));
        }
        Ok(())
    }

    /// Restore this constraint to the value of `rhs`, reusing the
    /// allocation.  The selector reverts its working copy this way after
    /// each simulated target.
    pub fn revert_from(&mut self, rhs: &Mask)
        requires
            old(self).mask@.len() == rhs.mask@.len(),
            old(self).count@.len() == rhs.count@.len(),
        ensures
            final(self).mask@ == rhs.mask@,
            final(self).count@ == rhs.count@,
    {
        let n = self.mask.len();
        let mut i: usize = 0;
        while i < n
            invariant
                i <= n,
                self.mask@.len() == n,
                rhs.mask@.len() == n,
                self.count@ == old(self).count@,
                forall|j: int| 0 <= j < i ==> self.mask@[j] == rhs.mask@[j],
            decreases n - i,
        {
            self.mask[i] = rhs.mask[i];
            i = i + 1;
        }
        let m = self.count.len();
        let mut c: usize = 0;
        while c < m
            invariant
                c <= m,
                self.count@.len() == m,
                rhs.count@.len() == m,
                self.mask@.len() == rhs.mask@.len(),
                forall|j: int| 0 <= j < self.mask@.len() ==> self.mask@[j] == rhs.mask@[j],
                forall|j: int| 0 <= j < c ==> self.count@[j] == rhs.count@[j],
            decreases m - c,
        {
            self.count[c] = rhs.count[c];
            c = c + 1;
        }
        proof {
            assert(self.mask@ =~= rhs.mask@);
            assert(self.count@ =~= rhs.count@);
        }
    }
}

/// Words of a dictionary prefix that satisfy a constraint.
pub open spec fn match_count_upto(
    masks: Seq<LetterMask>,
    counts: Seq<LetterBudget>,
    dico: Seq<Vec<u8>>,
    k: int,
) -> nat
    decreases k,
{
    if k <= 0 {
        0
    } else {
        match_count_upto(masks, counts, dico, k - 1) + (if dico[k - 1]@.len() == masks.len()
            && match_spec(masks, counts, dico[k - 1]@) {
            1nat
        } else {
            0nat
        })
    }
}

/// Words of the dictionary that satisfy the constraint.
pub open spec fn match_count(
    masks: Seq<LetterMask>,
    counts: Seq<LetterBudget>,
    dico: Seq<Vec<u8>>,
) -> nat {
    match_count_upto(masks, counts, dico, dico.len() as int)
}

/// The outcome of filtering a dictionary through a constraint: how many
/// words survive, or the unique survivor itself, or a length error.
pub enum FilterResult<'a> {
    Count(usize),
    Word(&'a Vec<u8>),
    Error(MaskError),
}

impl Mask {
    /// Count the words still possible under this constraint; if exactly one
    /// is, hand it back.
    pub fn filter<'a>(&self, dico: &'a Vec<Vec<u8>>) -> (r: FilterResult<'a>)
        requires
            self.wf(),
            crate::word::wf_dico(dico@),
        ensures
            match r {
                FilterResult::Count(k) => {
                    &&& crate::word::uniform_len(dico@, self.mask@.len() as int)
                    &&& k == match_count(self.mask@, self.count@, dico@)
                    &&& k != 1
                },
                FilterResult::Word(w) => {
                    &&& crate::word::uniform_len(dico@, self.mask@.len() as int)
                    &&& match_count(self.mask@, self.count@, dico@) == 1
                    &&& exists|i: int|
                        0 <= i < dico@.len() && match_spec(self.mask@, self.count@, (#[trigger] dico@[i])@)
                            && w@ == dico@[i]@
                },
                FilterResult::Error(e) => {
                    &&& exists|i: int|
                        0 <= i < dico@.len() && (#[trigger] dico@[i])@.len() != self.mask@.len()
                    &&& e matches MaskError::IncompatibleLen(op) && op@ == "match_with"@
                },
            },
    {
        let n = dico.len();
        let mut count: usize = 0;
        let mut last_match: usize = 0;
        let mut id: usize = 0;
        while id < n
            invariant
                id <= n,
                n == dico@.len(),
                self.wf(),
                crate::word::wf_dico(dico@),
                count == match_count_upto(self.mask@, self.count@, dico@, id as int),
                count <= id,
                forall|j: int| 0 <= j < id ==> (#[trigger] dico@[j])@.len() == self.mask@.len(),
                count >= 1 ==> last_match < id && match_spec(
                    self.mask@,
                    self.count@,
                    dico@[last_match as int]@,
                ),
            decreases n - id,
        {
            match self.match_with(dico[id].as_slice()) {
                Err(err) => {
                    return FilterResult::Error(err);
                },
                Ok(m) => {
                    if m {
                        last_match = id;
                        count = count + 1;
                    }
                },
            }
            id = id + 1;
        }
        if count == 1 {
            FilterResult::Word(&dico[last_match])
        } else {
            FilterResult::Count(count)
        }
    }
}

impl Clone for Mask {
    /// A deep copy: the selector works on a copy so that the live
    /// constraint never aliases it.
    fn clone(&self) -> (r: Self)
        ensures
            r.mask@ == self.mask@,
            r.count@ == self.count@,
    {
        let n = self.mask.len();
        let mut mask: Vec<LetterMask> = Vec::new();
        let mut i: usize = 0;
        while i < n
            invariant
                i <= n,
                self.mask@.len() == n,
                mask@.len() == i,
                forall|j: int| 0 <= j < i ==> mask@[j] == self.mask@[j],
            decreases n - i,
        {
            mask.push(self.mask[i]);
            i = i + 1;
        }
        let m = self.count.len();
        let mut count: Vec<LetterBudget> = Vec::new();
        let mut c: usize = 0;
        while c < m
            invariant
                c <= m,
                self.count@.len() == m,
                count@.len() == c,
                forall|j: int| 0 <= j < c ==> count@[j] == self.count@[j],
            decreases m - c,
        {
            count.push(self.count[c]);
            c = c + 1;
        }
        proof {
            assert(mask@ =~= self.mask@);
            assert(count@ =~= self.count@);
        }
        Mask { mask, count }
    }
}

} // verus!
