//! The laws the solver obeys, stated over the same specification functions
//! the executable contracts use, and proved once and for all.

use vstd::prelude::*;
use crate::color::{
    color_at, color_seq, free_occ_upto, lemma_yellow_occ_min, nonexact_occ_upto,
    yellow_occ_upto, ResultColor,
};
use crate::letter_mask::{
    lemma_bit_and_not, lemma_bit_full, lemma_bit_single, lemma_count_full, lemma_count_single,
    lemma_remove_bits, lemma_remove_never_empties, lemma_single_member_unique, lm_bit, lm_count,
    lm_remove, LetterMask,
};
use crate::mask::{
    fixed_count, fixed_upto, fresh_counts, fresh_masks, fully_placed, lemma_chain_keeps_bit,
    lemma_chain_singleton, match_spec, nonblue, nonblue_upto, removal_chain, removes_at,
    set_masks_spec, update_counts_spec, update_masks_spec, LetterBudget,
};
use crate::word::{lemma_occ_upto_le, occ, occ_upto, wf_word};

verus! {

pub open spec fn min_nat(a: nat, b: nat) -> nat {
    if a <= b {
        a
    } else {
        b
    }
}

/// Positions among the first `k` colored `col`.
pub open spec fn count_color_upto(s: Seq<ResultColor>, col: ResultColor, k: int) -> nat
    decreases k,
{
    if k <= 0 {
        0
    } else {
        count_color_upto(s, col, k - 1) + (if s[k - 1] == col {
            1nat
        } else {
            0nat
        })
    }
}

/// Sum of `f` over the letter indices below `c`.
pub open spec fn sum_letters(f: spec_fn(int) -> nat, c: int) -> nat
    decreases c,
{
    if c <= 0 {
        0
    } else {
        sum_letters(f, c - 1) + f(c - 1)
    }
}

pub proof fn lemma_sum_letters_congruent(f1: spec_fn(int) -> nat, f2: spec_fn(int) -> nat, c: int)
    requires
        forall|l: int| 0 <= l < c ==> #[trigger] f1(l) == f2(l),
    ensures
        sum_letters(f1, c) == sum_letters(f2, c),
    decreases c,
{
    if c > 0 {
        lemma_sum_letters_congruent(f1, f2, c - 1);
    }
}

pub proof fn lemma_sum_letters_step(
    f1: spec_fn(int) -> nat,
    f2: spec_fn(int) -> nat,
    l0: int,
    d: nat,
    c: int,
)
    requires
        0 <= l0 < c,
        forall|l: int| 0 <= l < c && l != l0 ==> #[trigger] f1(l) == f2(l),
        f2(l0) == f1(l0) + d,
    ensures
        sum_letters(f2, c) == sum_letters(f1, c) + d,
    decreases c,
{
    if l0 == c - 1 {
        lemma_sum_letters_congruent(f1, f2, c - 1);
    } else {
        lemma_sum_letters_step(f1, f2, l0, d, c - 1);
    }
}

/// Guess positions among the first `k` that carry letter `c` and are colored
/// exact or misplaced.
pub open spec fn ry_occ_upto(g: Seq<u8>, t: Seq<u8>, c: u8, k: int) -> nat
    decreases k,
{
    if k <= 0 {
        0
    } else {
        ry_occ_upto(g, t, c, k - 1) + (if g[k - 1] == c && color_at(g, t, k - 1)
            != ResultColor::Blue {
            1nat
        } else {
            0nat
        })
    }
}

/// Guess positions among the first `k` that carry letter `c` and match the
/// target exactly.
pub open spec fn red_occ_upto(g: Seq<u8>, t: Seq<u8>, c: u8, k: int) -> nat
    decreases k,
{
    if k <= 0 {
        0
    } else {
        red_occ_upto(g, t, c, k - 1) + (if g[k - 1] == c && g[k - 1] == t[k - 1] {
            1nat
        } else {
            0nat
        })
    }
}

pub proof fn lemma_ry_split(g: Seq<u8>, t: Seq<u8>, c: u8, k: int)
    ensures
        ry_occ_upto(g, t, c, k) == red_occ_upto(g, t, c, k) + yellow_occ_upto(g, t, c, k),
    decreases k,
{
    if k > 0 {
        lemma_ry_split(g, t, c, k - 1);
    }
}

pub proof fn lemma_guess_occ_split(g: Seq<u8>, t: Seq<u8>, c: u8, k: int)
    ensures
        occ_upto(g, c, k) == red_occ_upto(g, t, c, k) + nonexact_occ_upto(g, t, c, k),
    decreases k,
{
    if k > 0 {
        lemma_guess_occ_split(g, t, c, k - 1);
    }
}

pub proof fn lemma_target_occ_split(g: Seq<u8>, t: Seq<u8>, c: u8, k: int)
    ensures
        occ_upto(t, c, k) == red_occ_upto(g, t, c, k) + free_occ_upto(g, t, c, k),
    decreases k,
{
    if k > 0 {
        lemma_target_occ_split(g, t, c, k - 1);
    }
}

/// For one letter `c`, the exact and misplaced marks of a guess against a
/// target number exactly the smaller of its occurrence counts in the two
/// words.
pub proof fn lemma_ry_occ_min(g: Seq<u8>, t: Seq<u8>, c: u8)
    requires
        g.len() == t.len(),
    ensures
        ry_occ_upto(g, t, c, g.len() as int) == min_nat(occ(g, c), occ(t, c)),
{
    let k = g.len() as int;
    lemma_ry_split(g, t, c, k);
    lemma_guess_occ_split(g, t, c, k);
    lemma_target_occ_split(g, t, c, k);
    lemma_yellow_occ_min(g, t, c, k);
}

/// The partition of the exact-or-misplaced marks among the first `k`
/// positions by the letter the guess carries there.
proof fn lemma_ry_partition(g: Seq<u8>, t: Seq<u8>, k: int)
    requires
        wf_word(g),
        g.len() == t.len(),
        0 <= k <= g.len(),
    ensures
        count_color_upto(color_seq(g, t), ResultColor::Red, k) + count_color_upto(
            color_seq(g, t),
            ResultColor::Yellow,
            k,
        ) == sum_letters(|l: int| ry_occ_upto(g, t, (l + 97) as u8, k), 26),
    decreases k,
{
    let fk = |l: int| ry_occ_upto(g, t, (l + 97) as u8, k);
    if k <= 0 {
        lemma_sum_letters_congruent(fk, |l: int| 0nat, 26);
        assert(sum_letters(|l: int| 0nat, 26) == 0) by {
            lemma_sum_letters_zero(26);
        }
    } else {
        lemma_ry_partition(g, t, k - 1);
        let fp = |l: int| ry_occ_upto(g, t, (l + 97) as u8, k - 1);
        let l0 = g[k - 1] - 97;
        if color_at(g, t, k - 1) != ResultColor::Blue {
            assert forall|l: int| 0 <= l < 26 && l != l0 implies #[trigger] fp(l) == fk(l) by {
                assert(g[k - 1] != (l + 97) as u8);
            }
            assert(fk(l0 as int) == fp(l0 as int) + 1) by {
                assert(g[k - 1] == (l0 + 97) as u8);
            }
            lemma_sum_letters_step(fp, fk, l0 as int, 1, 26);
        } else {
            assert forall|l: int| 0 <= l < 26 implies #[trigger] fp(l) == fk(l) by {
                assert(g[k - 1] == (l + 97) as u8 ==> l == l0);
            }
            lemma_sum_letters_congruent(fp, fk, 26);
        }
    }
}

proof fn lemma_sum_letters_zero(c: int)
    ensures
        sum_letters(|l: int| 0nat, c) == 0,
    decreases c,
{
    if c > 0 {
        lemma_sum_letters_zero(c - 1);
    }
}

/// Over the whole words: the number of exact marks plus the number of
/// misplaced marks equals the sum over all letters of the smaller of the
/// letter's occurrence counts in the guess and in the target.
pub proof fn lemma_color_counts(g: Seq<u8>, t: Seq<u8>)
    requires
        wf_word(g),
        g.len() == t.len(),
    ensures
        count_color_upto(color_seq(g, t), ResultColor::Red, g.len() as int) + count_color_upto(
            color_seq(g, t),
            ResultColor::Yellow,
            g.len() as int,
        ) == sum_letters(|l: int| min_nat(occ(g, (l + 97) as u8), occ(t, (l + 97) as u8)), 26),
{
    let k = g.len() as int;
    lemma_ry_partition(g, t, k);
    let fr = |l: int| ry_occ_upto(g, t, (l + 97) as u8, k);
    let fm = |l: int| min_nat(occ(g, (l + 97) as u8), occ(t, (l + 97) as u8));
    assert forall|l: int| 0 <= l < 26 implies #[trigger] fr(l) == fm(l) by {
        lemma_ry_occ_min(g, t, (l + 97) as u8);
    }
    lemma_sum_letters_congruent(fr, fm, 26);
}

/// The colors produced against a target never mark a guess position
/// non-absent beyond the positions the colorer counts: the non-absent marks
/// of letter `c` are exactly its exact-or-misplaced marks.
proof fn lemma_nonblue_is_ry(g: Seq<u8>, t: Seq<u8>, c: u8, k: int)
    requires
        0 <= k <= g.len(),
    ensures
        nonblue_upto(g, color_seq(g, t), c, k) == ry_occ_upto(g, t, c, k),
    decreases k,
{
    if k > 0 {
        lemma_nonblue_is_ry(g, t, c, k - 1);
    }
}

/// If every position fixed to letter `ct` carries `ct` in the target, the
/// fixed positions number at most the target's occurrences of the letter.
proof fn lemma_fixed_le_occ(t: Seq<u8>, masks1: Seq<LetterMask>, ct: u32, k: int)
    requires
        0 <= k,
        forall|j: int|
            0 <= j < k ==> ((lm_count((#[trigger] masks1[j]).0) == 1 && lm_bit(masks1[j].0, ct))
                ==> t[j] == (ct + 97) as u8),
    ensures
        fixed_upto(masks1, ct, k) <= occ_upto(t, (ct + 97) as u8, k),
    decreases k,
{
    if k > 0 {
        lemma_fixed_le_occ(t, masks1, ct, k - 1);
    }
}

/// Strictly fewer, when some occurrence of the letter in the target sits at
/// a position that is not fixed.
proof fn lemma_fixed_lt_occ(t: Seq<u8>, masks1: Seq<LetterMask>, ct: u32, i: int, k: int)
    requires
        0 <= i < k,
        forall|j: int|
            0 <= j < k ==> ((lm_count((#[trigger] masks1[j]).0) == 1 && lm_bit(masks1[j].0, ct))
                ==> t[j] == (ct + 97) as u8),
        !(lm_count(masks1[i].0) == 1 && lm_bit(masks1[i].0, ct)),
        t[i] == (ct + 97) as u8,
    ensures
        fixed_upto(masks1, ct, k) + 1 <= occ_upto(t, (ct + 97) as u8, k),
    decreases k,
{
    if i == k - 1 {
        lemma_fixed_le_occ(t, masks1, ct, k - 1);
    } else {
        lemma_fixed_lt_occ(t, masks1, ct, i, k - 1);
    }
}

/// Updating a fresh constraint with the colors of a guess against the
/// target never rejects the target itself: whatever the guess, the hidden
/// word stays possible.
pub proof fn lemma_update_keeps_target(g: Seq<u8>, t: Seq<u8>)
    requires
        wf_word(g),
        wf_word(t),
        g.len() == t.len(),
        1 <= t.len() <= usize::MAX,
    ensures
        ({
            let masks0 = fresh_masks(t[0], t.len());
            let counts0 = fresh_counts();
            let cv = color_seq(g, t);
            match_spec(
                update_masks_spec(masks0, counts0, g, cv),
                update_counts_spec(counts0, g, cv),
                t,
            )
        }),
{
    let w = g.len() as int;
    let masks0 = fresh_masks(t[0], t.len());
    let counts0 = fresh_counts();
    let cv = color_seq(g, t);
    let counts1 = update_counts_spec(counts0, g, cv);
    let masks1 = set_masks_spec(masks0, g, cv);
    let masksf = update_masks_spec(masks0, counts0, g, cv);

    // The budgets admit the target's letter counts.
    assert forall|c: int| 0 <= c < 26 implies ({
        let b = #[trigger] counts1[c];
        if b.exact {
            occ(t, (c + 97) as u8) == b.count
        } else {
            occ(t, (c + 97) as u8) >= b.count
        }
    }) by {
        let cb = (c + 97) as u8;
        lemma_nonblue_is_ry(g, t, cb, w);
        lemma_ry_occ_min(g, t, cb);
        lemma_occ_upto_le(g, cb, w);
        lemma_occ_upto_le(t, cb, w);
    }

    // Every position's mask still admits the target's letter.
    assert forall|i: int| 0 <= i < w implies lm_bit(
        (#[trigger] masksf[i]).0,
        ((t[i] - 97) as u32),
    ) by {
        let ct: u32 = (t[i] - 97) as u32;
        let ctb = t[i];
        if g[i] == t[i] {
            let cg: u32 = (g[i] - 97) as u32;
            assert(cv[i] == ResultColor::Red);
            lemma_count_single(cg);
            lemma_bit_single(cg);
            lemma_chain_singleton(masks1[i].0, g, counts1, masks1, i, 26);
        } else {
            assert(cv[i] != ResultColor::Red);
            if i == 0 {
                lemma_count_single(ct);
                lemma_bit_single(ct);
                lemma_chain_singleton(masks1[0].0, g, counts1, masks1, 0, 26);
            } else {
                lemma_count_full();
                lemma_bit_full();
                if fully_placed(counts1, masks1, ct as int) {
                    lemma_nonblue_is_ry(g, t, ctb, w);
                    lemma_ry_occ_min(g, t, ctb);
                    lemma_occ_upto_le(t, ctb, w);
                    assert(counts1[ct as int].count == occ(t, ctb));
                    assert forall|j: int|
                        0 <= j < w implies ((lm_count((#[trigger] masks1[j]).0) == 1 && lm_bit(
                        masks1[j].0,
                        ct,
                    )) ==> t[j] == ctb) by {
                        if lm_count(masks1[j].0) == 1 && lm_bit(masks1[j].0, ct) {
                            if cv[j] == ResultColor::Red {
                                lemma_bit_single(((g[j] - 97) as u32));
                            } else if j == 0 {
                                lemma_bit_single(((t[0] - 97) as u32));
                            } else {
                                lemma_count_full();
                                assert(false);
                            }
                        }
                    }
                    lemma_fixed_lt_occ(t, masks1, ct, i, w);
                    assert(false);
                }
                assert(!removes_at(g, counts1, masks1, ct as int, i));
                lemma_chain_keeps_bit(masks1[i].0, g, counts1, masks1, i, ct, 26);
            }
        }
    }
}

/// Sums respect a pointwise bound.
pub proof fn lemma_sum_letters_le(f1: spec_fn(int) -> nat, f2: spec_fn(int) -> nat, c: int)
    requires
        forall|l: int| 0 <= l < c ==> #[trigger] f1(l) <= f2(l),
    ensures
        sum_letters(f1, c) <= sum_letters(f2, c),
    decreases c,
{
    if c > 0 {
        lemma_sum_letters_le(f1, f2, c - 1);
    }
}

/// The letter counts of a word partition its positions: they sum to its
/// length.
proof fn lemma_occ_sum(g: Seq<u8>, k: int)
    requires
        wf_word(g),
        0 <= k <= g.len(),
    ensures
        sum_letters(|l: int| occ_upto(g, (l + 97) as u8, k), 26) == k,
    decreases k,
{
    let fk = |l: int| occ_upto(g, (l + 97) as u8, k);
    if k <= 0 {
        lemma_sum_letters_congruent(fk, |l: int| 0nat, 26);
        lemma_sum_letters_zero(26);
    } else {
        lemma_occ_sum(g, k - 1);
        let fp = |l: int| occ_upto(g, (l + 97) as u8, k - 1);
        let l0 = g[k - 1] - 97;
        assert forall|l: int| 0 <= l < 26 && l != l0 implies #[trigger] fp(l) == fk(l) by {
            assert(g[k - 1] != (l + 97) as u8);
        }
        assert(fk(l0 as int) == fp(l0 as int) + 1) by {
            assert(g[k - 1] == (l0 + 97) as u8);
        }
        lemma_sum_letters_step(fp, fk, l0 as int, 1, 26);
    }
}

/// Letters among the first `k` that the removal pass aims at position `i`.
spec fn removes_ind(
    g: Seq<u8>,
    counts1: Seq<LetterBudget>,
    masks1: Seq<LetterMask>,
    i: int,
    k: int,
) -> nat
    decreases k,
{
    if k <= 0 {
        0
    } else {
        removes_ind(g, counts1, masks1, i, k - 1) + (if removes_at(g, counts1, masks1, k - 1, i) {
            1nat
        } else {
            0nat
        })
    }
}

/// The removal pass aims at position `i` at most the fully placed letters
/// plus the one letter the guess put there.
proof fn lemma_removes_le(
    g: Seq<u8>,
    counts1: Seq<LetterBudget>,
    masks1: Seq<LetterMask>,
    i: int,
    k: int,
)
    requires
        k <= 26,
        0 <= i < g.len(),
    ensures
        removes_ind(g, counts1, masks1, i, k) <= sum_letters(
            |l: int|
                if fully_placed(counts1, masks1, l) {
                    1nat
                } else {
                    0nat
                },
            k,
        ) + (if 0 <= g[i] - 97 < k {
            1nat
        } else {
            0nat
        }),
    decreases k,
{
    if k > 0 {
        lemma_removes_le(g, counts1, masks1, i, k - 1);
    }
}

/// From a fresh constraint, at most `g.len()` letters can be fully placed:
/// each fully placed letter occurs in the guess.
proof fn lemma_fp_sum_le_len(g: Seq<u8>, cv: Seq<ResultColor>, masks1: Seq<LetterMask>)
    requires
        wf_word(g),
    ensures
        sum_letters(
            |l: int|
                if fully_placed(update_counts_spec(fresh_counts(), g, cv), masks1, l) {
                    1nat
                } else {
                    0nat
                },
            26,
        ) <= g.len(),
{
    let counts1 = update_counts_spec(fresh_counts(), g, cv);
    let fpind = |l: int|
        if fully_placed(counts1, masks1, l) {
            1nat
        } else {
            0nat
        };
    let occf = |l: int| occ_upto(g, (l + 97) as u8, g.len() as int);
    assert forall|l: int| 0 <= l < 26 implies #[trigger] fpind(l) <= occf(l) by {
        if fully_placed(counts1, masks1, l) {
            assert(counts1[l].exact);
        }
    }
    lemma_sum_letters_le(fpind, occf, 26);
    lemma_occ_sum(g, g.len() as int);
}

/// A mask keeps at least its size minus the removals aimed at its position.
proof fn lemma_chain_count(
    m0: u32,
    g: Seq<u8>,
    counts1: Seq<LetterBudget>,
    masks1: Seq<LetterMask>,
    i: int,
    k: int,
)
    requires
        k <= 26,
    ensures
        lm_count(removal_chain(m0, g, counts1, masks1, i, k)) >= lm_count(m0) - removes_ind(
            g,
            counts1,
            masks1,
            i,
            k,
        ),
    decreases k,
{
    if k > 0 {
        lemma_chain_count(m0, g, counts1, masks1, i, k - 1);
        let p = removal_chain(m0, g, counts1, masks1, i, k - 1);
        if removes_at(g, counts1, masks1, k - 1, i) {
            if lm_count(p) >= 1 {
                lemma_remove_never_empties(p, (k - 1) as u32);
            }
        }
    }
}

/// Once a mask is down to one letter, the rest of the pass leaves it alone.
proof fn lemma_chain_stable(
    m0: u32,
    g: Seq<u8>,
    counts1: Seq<LetterBudget>,
    masks1: Seq<LetterMask>,
    i: int,
    j: int,
    k: int,
)
    requires
        0 <= j <= k,
        lm_count(removal_chain(m0, g, counts1, masks1, i, j)) <= 1,
    ensures
        removal_chain(m0, g, counts1, masks1, i, k) == removal_chain(m0, g, counts1, masks1, i, j),
    decreases k,
{
    if k > j {
        lemma_chain_stable(m0, g, counts1, masks1, i, j, k - 1);
    }
}

/// A cleared bit stays cleared through the rest of the pass.
proof fn lemma_chain_bit_mono(
    m0: u32,
    g: Seq<u8>,
    counts1: Seq<LetterBudget>,
    masks1: Seq<LetterMask>,
    i: int,
    c: u32,
    j: int,
    k: int,
)
    requires
        c < 26,
        0 <= j <= k <= 26,
        !lm_bit(removal_chain(m0, g, counts1, masks1, i, j), c),
    ensures
        !lm_bit(removal_chain(m0, g, counts1, masks1, i, k), c),
    decreases k,
{
    if k > j {
        lemma_chain_bit_mono(m0, g, counts1, masks1, i, c, j, k - 1);
        let p = removal_chain(m0, g, counts1, masks1, i, k - 1);
        if removes_at(g, counts1, masks1, k - 1, i) {
            lemma_remove_bits(p, (k - 1) as u32);
        }
    }
}

/// A letter the removal pass aims at position `i` is gone afterwards,
/// unless the mask ended as a singleton.
proof fn lemma_chain_clears_bit(
    m0: u32,
    g: Seq<u8>,
    counts1: Seq<LetterBudget>,
    masks1: Seq<LetterMask>,
    i: int,
    c: u32,
    kk: int,
)
    requires
        c < kk <= 26,
        removes_at(g, counts1, masks1, c as int, i),
        lm_count(removal_chain(m0, g, counts1, masks1, i, kk)) >= 2,
    ensures
        !lm_bit(removal_chain(m0, g, counts1, masks1, i, kk), c),
{
    let pc = removal_chain(m0, g, counts1, masks1, i, c as int);
    if lm_count(pc) <= 1 {
        lemma_chain_stable(m0, g, counts1, masks1, i, c as int, kk);
        assert(false);
    } else {
        lemma_bit_and_not(pc, c);
        assert(removal_chain(m0, g, counts1, masks1, i, c as int + 1) == lm_remove(pc, c));
        assert(!lm_bit(removal_chain(m0, g, counts1, masks1, i, c as int + 1), c));
        lemma_chain_bit_mono(m0, g, counts1, masks1, i, c, c as int + 1, kk);
    }
}

proof fn lemma_and_not_noop(m: u32, c: u32)
    by (bit_vector)
    requires
        c < 26,
        (m >> c) & 1u32 != 1u32,
    ensures
        m & !(1u32 << c) == m,
{
}

/// A pass that only aims at letters the mask does not hold leaves it
/// unchanged.
proof fn lemma_chain_noop(
    m0: u32,
    g: Seq<u8>,
    counts1: Seq<LetterBudget>,
    masks1: Seq<LetterMask>,
    i: int,
    k: int,
)
    requires
        k <= 26,
        forall|c: u32|
            c < k && removes_at(g, counts1, masks1, c as int, i) ==> !#[trigger] lm_bit(m0, c),
    ensures
        removal_chain(m0, g, counts1, masks1, i, k) == m0,
    decreases k,
{
    if k > 0 {
        lemma_chain_noop(m0, g, counts1, masks1, i, k - 1);
        if removes_at(g, counts1, masks1, k - 1, i) {
            assert(!lm_bit(m0, (k - 1) as u32));
            if lm_count(m0) > 1 {
                lemma_and_not_noop(m0, (k - 1) as u32);
            }
        }
    }
}

/// Two mask rows that agree on which positions are fixed to `c` have the
/// same fixed count.
proof fn lemma_fixed_congruent(ma: Seq<LetterMask>, mb: Seq<LetterMask>, c: u32, k: int)
    requires
        forall|j: int|
            0 <= j < k ==> ((lm_count((#[trigger] ma[j]).0) == 1 && lm_bit(ma[j].0, c)) <==> (
            lm_count(mb[j].0) == 1 && lm_bit(mb[j].0, c))),
    ensures
        fixed_upto(ma, c, k) == fixed_upto(mb, c, k),
    decreases k,
{
    if k > 0 {
        lemma_fixed_congruent(ma, mb, c, k - 1);
    }
}

/// Absorbing the same colored guess twice from a fresh constraint equals
/// absorbing it once: a second application changes neither the budgets nor
/// the masks.
pub proof fn lemma_update_idempotent(start: u8, g: Seq<u8>, cv: Seq<ResultColor>)
    requires
        97 <= start <= 122,
        wf_word(g),
        g.len() == cv.len(),
        1 <= g.len() <= 23,
    ensures
        ({
            let masks0 = fresh_masks(start, g.len());
            let counts0 = fresh_counts();
            let m1m = update_masks_spec(masks0, counts0, g, cv);
            let m1c = update_counts_spec(counts0, g, cv);
            update_masks_spec(m1m, m1c, g, cv) == m1m && update_counts_spec(m1c, g, cv) == m1c
        }),
{
    let w = g.len() as int;
    let masks0 = fresh_masks(start, g.len());
    let counts0 = fresh_counts();
    let masks1 = set_masks_spec(masks0, g, cv);
    let m1c = update_counts_spec(counts0, g, cv);
    let m1m = update_masks_spec(masks0, counts0, g, cv);

    // Budgets: refining an already refined budget with the same guess is a
    // no-op.
    assert forall|c: int| 0 <= c < 26 implies #[trigger] update_counts_spec(m1c, g, cv)[c]
        == m1c[c] by {
    }
    assert(update_counts_spec(m1c, g, cv) =~= m1c);
    let counts2 = update_counts_spec(m1c, g, cv);

    // Which positions hold a one-letter mask after the first update: the
    // same ones as right after the set pass, with the same letter.
    assert forall|i: int| 0 <= i < w implies (lm_count((#[trigger] m1m[i]).0) == 1 <==> lm_count(
        masks1[i].0,
    ) == 1) && (lm_count(masks1[i].0) == 1 ==> m1m[i] == masks1[i]) && (lm_count(masks1[i].0)
        != 1 ==> lm_count(m1m[i].0) >= 2) by {
        if lm_count(masks1[i].0) == 1 {
            lemma_chain_singleton(masks1[i].0, g, m1c, masks1, i, 26);
        } else {
            if cv[i] == ResultColor::Red {
                lemma_count_single(((g[i] - 97) as u32));
                assert(false);
            } else if i == 0 {
                lemma_count_single(((start - 97) as u32));
                assert(false);
            } else {
                assert(masks1[i].0 == 0x03FF_FFFFu32);
                lemma_count_full();
                lemma_chain_count(masks1[i].0, g, m1c, masks1, i, 26);
                lemma_removes_le(g, m1c, masks1, i, 26);
                lemma_fp_sum_le_len(g, cv, masks1);
                assert(lm_count(m1m[i].0) >= 2);
            }
        }
    }

    // The set pass of the second update changes nothing.
    let masks2 = set_masks_spec(m1m, g, cv);
    assert forall|i: int| 0 <= i < w implies #[trigger] masks2[i] == m1m[i] by {
        if cv[i] == ResultColor::Red {
            lemma_count_single(((g[i] - 97) as u32));
        }
    }
    assert(masks2 =~= m1m);

    // The fixed counts agree, so the same letters are fully placed.
    assert forall|c: u32| c < 26 implies #[trigger] fixed_count(m1m, c) == fixed_count(
        masks1,
        c,
    ) by {
        assert forall|j: int|
            0 <= j < w implies ((lm_count((#[trigger] m1m[j]).0) == 1 && lm_bit(m1m[j].0, c))
            <==> (lm_count(masks1[j].0) == 1 && lm_bit(masks1[j].0, c))) by {
        }
        lemma_fixed_congruent(m1m, masks1, c, w);
    }

    // The removal pass of the second update aims at the same letters, all
    // already gone: it changes nothing either.
    assert forall|i: int| 0 <= i < w implies #[trigger] update_masks_spec(m1m, m1c, g, cv)[i]
        == m1m[i] by {
        assert(update_masks_spec(m1m, m1c, g, cv)[i] == LetterMask(
            removal_chain(m1m[i].0, g, m1c, m1m, i, 26),
        ));
        if lm_count(m1m[i].0) == 1 {
            lemma_chain_singleton(m1m[i].0, g, m1c, m1m, i, 26);
        } else {
            assert(lm_count(masks1[i].0) != 1);
            assert(lm_count(m1m[i].0) >= 2);
            assert forall|c: u32|
                c < 26 && removes_at(g, m1c, m1m, c as int, i) implies !#[trigger] lm_bit(
                m1m[i].0,
                c,
            ) by {
                assert(fully_placed(m1c, m1m, c as int) == fully_placed(m1c, masks1, c as int));
                assert(removes_at(g, m1c, masks1, c as int, i));
                lemma_chain_clears_bit(masks1[i].0, g, m1c, masks1, i, c, 26);
            }
            lemma_chain_noop(m1m[i].0, g, m1c, m1m, i, 26);
        }
    }
    assert(update_masks_spec(m1m, m1c, g, cv) =~= m1m);
}

proof fn lemma_occ_mono(w: Seq<u8>, c: u8, j: int, k: int)
    requires
        j <= k,
    ensures
        occ_upto(w, c, j) <= occ_upto(w, c, k),
    decreases k - j,
{
    if j < k {
        lemma_occ_mono(w, c, j, k - 1);
    }
}

proof fn lemma_nonexact_mono(g: Seq<u8>, t: Seq<u8>, c: u8, j: int, k: int)
    requires
        j <= k,
    ensures
        nonexact_occ_upto(g, t, c, j) <= nonexact_occ_upto(g, t, c, k),
    decreases k - j,
{
    if j < k {
        lemma_nonexact_mono(g, t, c, j, k - 1);
    }
}

/// Two targets whose exact positions against a guess coincide leave the
/// same non-exact guess occurrences.
proof fn lemma_nonexact_congruent(g: Seq<u8>, w: Seq<u8>, t: Seq<u8>, c: u8, k: int)
    requires
        forall|j: int| 0 <= j < k ==> ((#[trigger] g[j] == w[j]) <==> (g[j] == t[j])),
        0 <= k,
    ensures
        nonexact_occ_upto(g, w, c, k) == nonexact_occ_upto(g, t, c, k),
    decreases k,
{
    if k > 0 {
        lemma_nonexact_congruent(g, w, t, c, k - 1);
    }
}

/// ... and the same exactly matched occurrences.
proof fn lemma_red_congruent(g: Seq<u8>, w: Seq<u8>, t: Seq<u8>, c: u8, k: int)
    requires
        forall|j: int| 0 <= j < k ==> ((#[trigger] g[j] == w[j]) <==> (g[j] == t[j])),
        0 <= k,
    ensures
        red_occ_upto(g, w, c, k) == red_occ_upto(g, t, c, k),
    decreases k,
{
    if k > 0 {
        lemma_red_congruent(g, w, t, c, k - 1);
    }
}

/// Every word that satisfies the constraint left by a guess and its colors
/// against some target is colored by that guess exactly as the target was:
/// the constraint retains everything the colors revealed.
pub proof fn lemma_consistent_words_share_colors(g: Seq<u8>, t: Seq<u8>, w: Seq<u8>)
    requires
        wf_word(g),
        wf_word(t),
        wf_word(w),
        g.len() == t.len() && t.len() == w.len(),
        1 <= g.len() <= 23,
    ensures
        ({
            let masks0 = fresh_masks(t[0], t.len());
            let counts0 = fresh_counts();
            let cv = color_seq(g, t);
            match_spec(
                update_masks_spec(masks0, counts0, g, cv),
                update_counts_spec(counts0, g, cv),
                w,
            ) ==> color_seq(g, w) == color_seq(g, t)
        }),
{
    let wl = g.len() as int;
    let masks0 = fresh_masks(t[0], t.len());
    let counts0 = fresh_counts();
    let cv = color_seq(g, t);
    let masks1 = set_masks_spec(masks0, g, cv);
    let m1c = update_counts_spec(counts0, g, cv);
    let m1m = update_masks_spec(masks0, counts0, g, cv);
    if match_spec(m1m, m1c, w) {
        // The exact positions of the guess against `w` are those against
        // `t`.
        assert forall|i: int| 0 <= i < wl implies ((#[trigger] g[i] == w[i]) <==> (g[i]
            == t[i])) by {
            if g[i] == t[i] {
                let cg: u32 = (g[i] - 97) as u32;
                lemma_count_single(cg);
                lemma_bit_single(cg);
                lemma_chain_singleton(masks1[i].0, g, m1c, masks1, i, 26);
                lemma_single_member_unique(m1m[i].0, ((w[i] - 97) as u32), cg);
            } else {
                if g[i] == w[i] {
                    if i == 0 {
                        let ct0: u32 = (t[0] - 97) as u32;
                        lemma_count_single(ct0);
                        lemma_bit_single(ct0);
                        lemma_chain_singleton(masks1[0].0, g, m1c, masks1, 0, 26);
                        lemma_single_member_unique(m1m[0].0, ((w[0] - 97) as u32), ct0);
                        assert(false);
                    } else {
                        lemma_count_full();
                        lemma_chain_count(masks1[i].0, g, m1c, masks1, i, 26);
                        lemma_removes_le(g, m1c, masks1, i, 26);
                        lemma_fp_sum_le_len(g, cv, masks1);
                        assert(lm_count(m1m[i].0) >= 2);
                        assert(removes_at(g, m1c, masks1, (g[i] - 97) as int, i));
                        lemma_chain_clears_bit(
                            masks1[i].0,
                            g,
                            m1c,
                            masks1,
                            i,
                            ((g[i] - 97) as u32),
                            26,
                        );
                        assert(false);
                    }
                }
            }
        }
        // Position by position, the colors against `w` equal those against
        // `t`.
        assert forall|i: int| 0 <= i < wl implies #[trigger] color_seq(g, w)[i] == color_seq(
            g,
            t,
        )[i] by {
            if g[i] != t[i] {
                let c = g[i];
                let cl = (c - 97) as int;
                lemma_nonexact_congruent(g, w, t, c, i);
                lemma_red_congruent(g, w, t, c, wl);
                lemma_target_occ_split(g, w, c, wl);
                lemma_target_occ_split(g, t, c, wl);
                lemma_guess_occ_split(g, t, c, wl);
                lemma_guess_occ_split(g, w, c, wl);
                lemma_nonblue_is_ry(g, t, c, wl);
                lemma_ry_occ_min(g, t, c);
                lemma_occ_upto_le(g, c, wl);
                lemma_occ_upto_le(t, c, wl);
                let a = occ(g, c);
                let r = min_nat(occ(g, c), occ(t, c));
                assert(m1c[cl] == crate::mask::budget_next(counts0[cl], a, nonblue(g, cv, c)));
                assert(nonblue(g, cv, c) == r);
                if a > r {
                    // Exact budget: `w` holds the letter exactly as often
                    // as `t` does.
                    assert(occ(w, c) == occ(t, c));
                } else {
                    // Lower bound: both words hold the letter at least as
                    // often as the guess, so the supply never runs out and
                    // this position is misplaced against either.
                    assert(occ_upto(g, c, i + 1) >= 1);
                    lemma_occ_mono(g, c, i + 1, wl);
                    assert(a >= 1);
                    assert(occ(w, c) >= a);
                    assert(nonexact_occ_upto(g, t, c, i + 1) == nonexact_occ_upto(g, t, c, i)
                        + 1);
                    lemma_nonexact_mono(g, t, c, i + 1, wl);
                }
            }
        }
        assert(color_seq(g, w) =~= color_seq(g, t));
    }
}

} // verus!
