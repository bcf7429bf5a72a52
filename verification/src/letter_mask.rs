//! A set of letters at one word position, stored as the low 26 bits of a
//! `u32` (bit `0` is `'a'`, bit `25` is `'z'`).

use vstd::prelude::*;

verus! {

/// Bit `c` of `m`, for `c < 26`: whether letter index `c` is in the set.
pub open spec fn lm_bit(m: u32, c: u32) -> bool {
    c < 26 && (m >> c) & 1u32 == 1u32
}

/// Number of set bits of `m` below position `k`.
pub open spec fn lm_count_upto(m: u32, k: int) -> nat
    decreases k,
{
    if k <= 0 {
        0
    } else {
        lm_count_upto(m, k - 1) + (if lm_bit(m, (k - 1) as u32) {
            1nat
        } else {
            0nat
        })
    }
}

/// Number of letters in the set: set bits among the low 26.
pub open spec fn lm_count(m: u32) -> nat {
    lm_count_upto(m, 26)
}

/// The result of dropping letter `c`, except that a set of one letter is
/// never emptied.
pub open spec fn lm_remove(m: u32, c: u32) -> u32 {
    if lm_count(m) > 1 {
        m & !(1u32 << c)
    } else {
        m
    }
}

pub proof fn lemma_bit_and_not(m: u32, c: u32)
    by (bit_vector)
    requires
        c < 26,
    ensures
        forall|j: u32|
            j < 26 ==> #[trigger] lm_bit(m & !(1u32 << c), j) == (lm_bit(m, j) && j != c),
{
}

pub proof fn lemma_bit_single(c: u32)
    by (bit_vector)
    requires
        c < 26,
    ensures
        forall|j: u32| j < 26 ==> #[trigger] lm_bit(1u32 << c, j) == (j == c),
{
}

/// The full set admits every letter.
pub proof fn lemma_bit_full()
    by (bit_vector)
    ensures
        forall|j: u32| j < 26 ==> #[trigger] lm_bit(0x03FF_FFFFu32, j),
{
}

/// Dropping one bit lowers the count below `k` by one exactly when the bit
/// was set below `k`.
pub proof fn lemma_count_drop_bit(m1: u32, m2: u32, c: u32, k: int)
    requires
        k <= 26,
        forall|j: u32| j < k && j != c ==> lm_bit(m1, j) == lm_bit(m2, j),
        !lm_bit(m2, c),
    ensures
        lm_count_upto(m2, k) == lm_count_upto(m1, k) - (if lm_bit(m1, c) && c < k {
            1int
        } else {
            0int
        }),
    decreases k,
{
    if k > 0 {
        lemma_count_drop_bit(m1, m2, c, k - 1);
    }
}

/// A member below `k` forces a positive count below `k`.
pub proof fn lemma_member_count(m: u32, a: u32, k: int)
    requires
        a < k,
        lm_bit(m, a),
    ensures
        lm_count_upto(m, k) >= 1,
    decreases k,
{
    if a < k - 1 {
        lemma_member_count(m, a, k - 1);
    }
}

/// Two distinct members force a count of at least two.
pub proof fn lemma_count_two_members(m: u32, a: u32, b: u32, k: int)
    requires
        a < b < k,
        lm_bit(m, a),
        lm_bit(m, b),
    ensures
        lm_count_upto(m, k) >= 2,
    decreases k,
{
    if b == k - 1 {
        lemma_member_count(m, a, k - 1);
    } else {
        lemma_count_two_members(m, a, b, k - 1);
    }
}

/// In a set of exactly one letter, any two members coincide.
pub proof fn lemma_single_member_unique(m: u32, a: u32, b: u32)
    requires
        lm_count(m) == 1,
        lm_bit(m, a),
        lm_bit(m, b),
    ensures
        a == b,
{
    if a != b {
        if a < b {
            lemma_count_two_members(m, a, b, 26);
        } else {
            lemma_count_two_members(m, b, a, 26);
        }
    }
}

/// Removing a letter never empties the set: a non-empty set stays non-empty.
/// This holds because a set of one letter refuses the removal outright, and a
/// larger set loses at most one member.
pub proof fn lemma_remove_never_empties(m: u32, c: u32)
    requires
        c < 26,
        lm_count(m) >= 1,
    ensures
        lm_count(lm_remove(m, c)) >= 1,
        lm_count(lm_remove(m, c)) >= lm_count(m) - 1,
{
    if lm_count(m) > 1 {
        let m2 = m & !(1u32 << c);
        lemma_bit_and_not(m, c);
        assert(!lm_bit(m2, c));
        lemma_count_drop_bit(m, m2, c, 26);
    }
}

/// How removal changes each bit: bit `j` survives exactly when it was set
/// and either differs from the removed letter or the set was a singleton.
pub proof fn lemma_remove_bits(m: u32, c: u32)
    requires
        c < 26,
    ensures
        forall|j: u32|
            j < 26 ==> #[trigger] lm_bit(lm_remove(m, c), j) == (lm_bit(m, j) && (j != c
                || lm_count(m) <= 1)),
{
    if lm_count(m) > 1 {
        lemma_bit_and_not(m, c);
    }
}

pub proof fn lemma_count_single_upto(c: u32, k: int)
    requires
        c < 26,
        k <= 26,
    ensures
        lm_count_upto(1u32 << c, k) == (if c < k {
            1nat
        } else {
            0nat
        }),
    decreases k,
{
    lemma_bit_single(c);
    if k > 0 {
        lemma_count_single_upto(c, k - 1);
    }
}

/// A one-letter set counts one member.
pub proof fn lemma_count_single(c: u32)
    requires
        c < 26,
    ensures
        lm_count(1u32 << c) == 1,
{
    lemma_count_single_upto(c, 26);
}

pub proof fn lemma_count_full_upto(k: int)
    requires
        k <= 26,
    ensures
        lm_count_upto(0x03FF_FFFFu32, k) == (if k <= 0 {
            0int
        } else {
            k
        }),
    decreases k,
{
    lemma_bit_full();
    if k > 0 {
        lemma_count_full_upto(k - 1);
    }
}

/// The full set counts all 26 letters.
pub proof fn lemma_count_full()
    ensures
        lm_count(0x03FF_FFFFu32) == 26,
{
    lemma_count_full_upto(26);
}

/// The set of letters still admitted at one position of the hidden word.
#[derive(Clone, Copy, Debug, PartialEq, Eq, Structural)]
pub struct LetterMask(pub u32);

impl LetterMask {
    /// The bit standing for letter `char` (a byte in `b'a'..=b'z'`).
    pub fn mask(char: u8) -> (r: u32)
        requires
            97 <= char <= 122,
        ensures
            r == 1u32 << ((char - 97) as u32),
    {
        1u32 << ((char - 97) as u32)
    }

    /// How many letters the set admits.
    pub fn count(&self) -> (n: u32)
        ensures
            n == lm_count(self.0),
    {
        let mut n: u32 = 0;
        let mut c: u32 = 0;
        while c < 26
            invariant
                c <= 26,
                n <= c,
                n == lm_count_upto(self.0, c as int),
            decreases 26 - c,
        {
            if (self.0 >> c) & 1u32 == 1u32 {
                n = n + 1;
            }
            c = c + 1;
        }
        n
    }

    /// Drop `char` from the set, unless the set has only one letter: the
    /// last admitted letter of a position can never be taken away.
    pub fn remove(&mut self, char: u8)
        requires
            97 <= char <= 122,
        ensures
            final(self).0 == lm_remove(old(self).0, (char - 97) as u32),
            lm_count(old(self).0) >= 1 ==> lm_count(final(self).0) >= 1,
    {
        proof {
            if lm_count(self.0) >= 1 {
                lemma_remove_never_empties(self.0, (char - 97) as u32);
            }
        }
        if self.count() > 1 {
            self.0 = self.0 & !(1u32 << ((char - 97) as u32));
        }
    }

    /// Replace the set by the one letter `char`.
    pub fn set(&mut self, char: u8)
        requires
            97 <= char <= 122,
        ensures
            final(self).0 == 1u32 << ((char - 97) as u32),
    {
        self.0 = 1u32 << ((char - 97) as u32);
    }

    /// Whether the set admits `char`.
    pub fn match_with(&self, char: u8) -> (r: bool)
        requires
            97 <= char <= 122,
        ensures
            r == lm_bit(self.0, (char - 97) as u32),
    {
        let c: u32 = (char - 97) as u32;
        proof {
            let m = self.0;
            assert((m & (1u32 << c) != 0) == ((m >> c) & 1u32 == 1u32)) by (bit_vector)
                requires
                    c < 26,
            ;
        }
        self.0 & (1u32 << c) != 0
    }

    /// The single admitted letter, as a byte, if the set has exactly one.
    pub fn red_char(&self) -> (r: Option<u8>)
        ensures
            match r {
                Some(c) => lm_count(self.0) == 1 && 97 <= c <= 122 && lm_bit(
                    self.0,
                    (c - 97) as u32,
                ),
                None => lm_count(self.0) != 1,
            },
    {
        if self.count() == 1 {
            let mut c: u32 = 0;
            while c < 26
                invariant
                    c <= 26,
                    lm_count(self.0) == 1,
                    lm_count_upto(self.0, c as int) == 0,
                decreases 26 - c,
            {
                if (self.0 >> c) & 1u32 == 1u32 {
                    return Some(97 + c as u8);
                }
                c = c + 1;
            }
            proof {
                assert(false);
            }
            None
        } else {
            None
        }
    }
}

impl Default for LetterMask {
    /// The full set: all 26 letters admitted.
    fn default() -> (r: Self)
        ensures
            r.0 == 0x03FF_FFFFu32,
    {
        LetterMask(0x03FF_FFFF)
    }
}

} // verus!
