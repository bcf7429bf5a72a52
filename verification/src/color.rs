//! Coloring a guess against a target: the per-position result colors, their
//! exact mathematical description, and the string form `r`/`y`/`b`.

use vstd::prelude::*;
use vstd::string::StrSliceExecFns;
use vstd::string::StringExecFns;
use crate::mask::MaskError;
use crate::word::{occ_upto, wf_word};

verus! {

/// The annotation of one guess position: `Red` is an exact match, `Yellow` a
/// present-but-misplaced letter, `Blue` an absent one.
#[derive(Clone, Copy, Debug, PartialEq, Eq, Structural)]
pub enum ResultColor {
    Blue,
    Yellow,
    Red,
}

/// A color string held a character other than `r`, `y`, `b` (any case).
#[derive(Debug)]
pub enum ConvertError {
    InvalidChar(char),
}

/// Guess positions among the first `k` that carry letter `c` without being
/// exact matches.
pub open spec fn nonexact_occ_upto(g: Seq<u8>, t: Seq<u8>, c: u8, k: int) -> nat
    decreases k,
{
    if k <= 0 {
        0
    } else {
        nonexact_occ_upto(g, t, c, k - 1) + (if g[k - 1] == c && g[k - 1] != t[k - 1] {
            1nat
        } else {
            0nat
        })
    }
}

/// Target positions among the first `k` that carry letter `c` without being
/// exact matches: the occurrences of `c` still free to justify a misplaced
/// mark.
pub open spec fn free_occ_upto(g: Seq<u8>, t: Seq<u8>, c: u8, k: int) -> nat
    decreases k,
{
    if k <= 0 {
        0
    } else {
        free_occ_upto(g, t, c, k - 1) + (if t[k - 1] == c && g[k - 1] != t[k - 1] {
            1nat
        } else {
            0nat
        })
    }
}

pub open spec fn free_occ(g: Seq<u8>, t: Seq<u8>, c: u8) -> nat {
    free_occ_upto(g, t, c, t.len() as int)
}

/// The color of guess position `i` against target `t`, by the standard
/// two-pass rule: exact matches first; then each non-exact guess position
/// takes a misplaced mark while free occurrences of its letter remain in the
/// target, scanning guess positions left to right.
pub open spec fn color_at(g: Seq<u8>, t: Seq<u8>, i: int) -> ResultColor {
    if g[i] == t[i] {
        ResultColor::Red
    } else if nonexact_occ_upto(g, t, g[i], i) < free_occ(g, t, g[i]) {
        ResultColor::Yellow
    } else {
        ResultColor::Blue
    }
}

/// The whole color vector of a guess against a target.
pub open spec fn color_seq(g: Seq<u8>, t: Seq<u8>) -> Seq<ResultColor> {
    Seq::new(g.len(), |i: int| color_at(g, t, i))
}

pub open spec fn all_red(s: Seq<ResultColor>) -> bool {
    forall|i: int| 0 <= i < s.len() ==> s[i] == ResultColor::Red
}

/// Guess positions among the first `k` that carry letter `c` and are colored
/// misplaced.
pub open spec fn yellow_occ_upto(g: Seq<u8>, t: Seq<u8>, c: u8, k: int) -> nat
    decreases k,
{
    if k <= 0 {
        0
    } else {
        yellow_occ_upto(g, t, c, k - 1) + (if g[k - 1] == c && color_at(g, t, k - 1)
            == ResultColor::Yellow {
            1nat
        } else {
            0nat
        })
    }
}

/// The misplaced marks of letter `c` among the first `k` guess positions are
/// exactly the smaller of the non-exact guess occurrences seen so far and the
/// free target occurrences: the two-pass rule hands marks out greedily until
/// the target's supply runs dry.
pub proof fn lemma_yellow_occ_min(g: Seq<u8>, t: Seq<u8>, c: u8, k: int)
    requires
        0 <= k <= g.len(),
    ensures
        yellow_occ_upto(g, t, c, k) == (if nonexact_occ_upto(g, t, c, k) <= free_occ(g, t, c) {
            nonexact_occ_upto(g, t, c, k)
        } else {
            free_occ(g, t, c)
        }),
    decreases k,
{
    if k > 0 {
        lemma_yellow_occ_min(g, t, c, k - 1);
    }
}

/// Occurrences of `c` in the target split into exact matches and free ones.
pub proof fn lemma_occ_split(g: Seq<u8>, t: Seq<u8>, c: u8, k: int)
    ensures
        occ_upto(t, c, k) == free_occ_upto(g, t, c, k) + (occ_upto(t, c, k) - free_occ_upto(
            g,
            t,
            c,
            k,
        )),
        free_occ_upto(g, t, c, k) <= occ_upto(t, c, k),
    decreases k,
{
    if k > 0 {
        lemma_occ_split(g, t, c, k - 1);
    }
}

/// Coloring a word against itself marks every position exact.
pub proof fn lemma_color_self(w: Seq<u8>)
    ensures
        all_red(color_seq(w, w)),
        color_seq(w, w).len() == w.len(),
{
}

/// The character a color is displayed as.
pub open spec fn color_char(c: ResultColor) -> char {
    match c {
        ResultColor::Red => 'r',
        ResultColor::Yellow => 'y',
        ResultColor::Blue => 'b',
    }
}

/// The rendered form of a color vector.
pub open spec fn render_spec(s: Seq<ResultColor>) -> Seq<char> {
    Seq::new(s.len(), |i: int| color_char(s[i]))
}

/// The color a character parses to, case-insensitively; `None` if invalid.
pub open spec fn parse_color(ch: char) -> Option<ResultColor> {
    if ch == 'r' || ch == 'R' {
        Some(ResultColor::Red)
    } else if ch == 'y' || ch == 'Y' {
        Some(ResultColor::Yellow)
    } else if ch == 'b' || ch == 'B' {
        Some(ResultColor::Blue)
    } else {
        None
    }
}

pub open spec fn valid_colors(s: Seq<char>) -> bool {
    forall|i: int| 0 <= i < s.len() ==> (#[trigger] parse_color(s[i])) is Some
}

pub open spec fn parsed_colors(s: Seq<char>) -> Seq<ResultColor> {
    Seq::new(s.len(), |i: int| parse_color(s[i]).unwrap())
}

/// The lowercase form of a valid color character.
pub open spec fn lower_color_char(ch: char) -> char {
    if ch == 'R' {
        'r'
    } else if ch == 'Y' {
        'y'
    } else if ch == 'B' {
        'b'
    } else {
        ch
    }
}

/// Parsing a color string and rendering the result yields the same string in
/// lowercase.
pub proof fn lemma_parse_render_roundtrip(s: Seq<char>)
    requires
        valid_colors(s),
    ensures
        render_spec(parsed_colors(s)) =~= Seq::new(s.len(), |i: int| lower_color_char(s[i])),
{
    assert forall|i: int| 0 <= i < s.len() implies render_spec(parsed_colors(s))[i]
        == lower_color_char(s[i]) by {
        assert(parse_color(s[i]) is Some);
    }
}

/// Digit of a color in the base-3 encoding of a color vector.
pub open spec fn color_digit(c: ResultColor) -> int {
    match c {
        ResultColor::Red => 0,
        ResultColor::Yellow => 1,
        ResultColor::Blue => 2,
    }
}

/// Base-3 value of the first `k` colors, most significant first.
pub open spec fn state_id_upto(s: Seq<ResultColor>, k: int) -> int
    decreases k,
{
    if k <= 0 {
        0
    } else {
        state_id_upto(s, k - 1) * 3 + color_digit(s[k - 1])
    }
}

pub open spec fn state_id_spec(s: Seq<ResultColor>) -> int {
    state_id_upto(s, s.len() as int)
}

pub open spec fn pow3(k: int) -> int
    decreases k,
{
    if k <= 0 {
        1
    } else {
        3 * pow3(k - 1)
    }
}

pub proof fn lemma_state_id_bounds(s: Seq<ResultColor>, k: int)
    ensures
        0 <= state_id_upto(s, k) < pow3(k),
    decreases k,
{
    if k > 0 {
        lemma_state_id_bounds(s, k - 1);
    }
}

pub proof fn lemma_pow3_mono(a: int, b: int)
    requires
        a <= b,
    ensures
        1 <= pow3(a) <= pow3(b),
    decreases b,
{
    if a < b && b > 0 {
        lemma_pow3_mono(a, b - 1);
    } else if a >= b {
        lemma_pow3_pos(a);
    }
}

pub proof fn lemma_pow3_pos(a: int)
    ensures
        pow3(a) >= 1,
    decreases a,
{
    if a > 0 {
        lemma_pow3_pos(a - 1);
    }
}

/// Two color vectors of the same length with the same base-3 value are equal.
pub proof fn lemma_state_id_injective(s1: Seq<ResultColor>, s2: Seq<ResultColor>, k: int)
    requires
        state_id_upto(s1, k) == state_id_upto(s2, k),
    ensures
        forall|j: int| 0 <= j < k ==> s1[j] == s2[j],
    decreases k,
{
    if k > 0 {
        lemma_state_id_bounds(s1, k - 1);
        lemma_state_id_bounds(s2, k - 1);
        assert(state_id_upto(s1, k - 1) == state_id_upto(s2, k - 1) && color_digit(s1[k - 1])
            == color_digit(s2[k - 1]));
        lemma_state_id_injective(s1, s2, k - 1);
    }
}

impl ResultColor {
    /// The character this color is displayed as.
    pub fn to_char(&self) -> (r: char)
        ensures
            r == color_char(*self),
    {
        match self {
            ResultColor::Red => 'r',
            ResultColor::Yellow => 'y',
            ResultColor::Blue => 'b',
        }
    }

    /// Parse one color character, case-insensitively.
    pub fn try_from_char(value: char) -> (r: Result<ResultColor, ConvertError>)
        ensures
            match r {
                Ok(c) => parse_color(value) == Some(c),
                Err(e) => {
                    &&& parse_color(value) is None
                    &&& e matches ConvertError::InvalidChar(ch) && ch == value
                },
            },
    {
        match value {
            'r' | 'R' => Ok(ResultColor::Red),
            'y' | 'Y' => Ok(ResultColor::Yellow),
            'b' | 'B' => Ok(ResultColor::Blue),
            _ => Err(ConvertError::InvalidChar(value)),
        }
    }
}

impl Default for ResultColor {
    /// An unknown position starts as absent.
    fn default() -> (r: Self)
        ensures
            r == ResultColor::Blue,
    {
        ResultColor::Blue
    }
}

/// The per-position colors of one guess, in order.
#[derive(Clone, Debug)]
pub struct ResultState {
    pub state: Vec<ResultColor>,
}

impl ResultState {
    /// The state at the start of a game: the revealed first letter is an
    /// exact match, everything else is unknown (absent).
    pub fn new(len: usize) -> (r: Self)
        requires
            len >= 1,
        ensures
            r.state@.len() == len,
            r.state@[0] == ResultColor::Red,
            forall|i: int| 1 <= i < len ==> r.state@[i] == ResultColor::Blue,
    {
        let mut state: Vec<ResultColor> = Vec::new();
        state.push(ResultColor::Red);
        let mut i: usize = 1;
        while i < len
            invariant
                1 <= i <= len,
                state@.len() == i,
                state@[0] == ResultColor::Red,
                forall|j: int| 1 <= j < i ==> state@[j] == ResultColor::Blue,
            decreases len - i,
        {
            state.push(ResultColor::Blue);
            i = i + 1;
        }
        ResultState { state }
    }

    /// Recompute the colors of `guess` against `target` by the two-pass
    /// rule, replacing the held state.
    pub fn update_with(&mut self, guess: &[u8], target: &[u8]) -> (r: Result<(), MaskError>)
        requires
            wf_word(guess@),
            wf_word(target@),
        ensures
            match r {
                Ok(()) => old(self).state@.len() == guess@.len() && guess@.len() == target@.len()
                    && final(self).state@ == color_seq(guess@, target@),
                Err(e) => {
                    &&& !(old(self).state@.len() == guess@.len() && guess@.len() == target@.len())
                    &&& final(self).state@ == old(self).state@
                    &&& e matches MaskError::IncompatibleLen(op) && op@ == "update_with"@
                },
            },
    {
        if !(self.state.len() == guess.len() && self.state.len() == target.len()) {
            return Err(MaskError::IncompatibleLen("update_with"));
        }
        let n = guess.len();
        let ghost g = guess@;
        let ghost t = target@;

        // First pass: exact matches.
        let mut i: usize = 0;
        while i < n
            invariant
                i <= n,
                n == g.len() == t.len(),
                self.state@.len() == n,
                g == guess@,
                t == target@,
                forall|j: int|
                    0 <= j < i ==> self.state@[j] == (if g[j] == t[j] {
                        ResultColor::Red
                    } else {
                        ResultColor::Blue
                    }),
            decreases n - i,
        {
            if guess[i] == target[i] {
                self.state[i] = ResultColor::Red;
            } else {
                self.state[i] = ResultColor::Blue;
            }
            i = i + 1;
        }

        // Free occurrences of each letter in the target.
        let mut rem: Vec<usize> = Vec::new();
        let mut c: usize = 0;
        while c < 26
            invariant
                c <= 26,
                rem@.len() == c,
                forall|l: int| 0 <= l < c ==> rem@[l] == 0,
            decreases 26 - c,
        {
            rem.push(0);
            c = c + 1;
        }
        let mut j: usize = 0;
        while j < n
            invariant
                j <= n,
                n == g.len() == t.len(),
                g == guess@,
                t == target@,
                wf_word(g),
                wf_word(t),
                rem@.len() == 26,
                forall|l: int|
                    0 <= l < 26 ==> rem@[l] == free_occ_upto(g, t, (l + 97) as u8, j as int),
            decreases n - j,
        {
            if target[j] != guess[j] {
                let li = (target[j] - 97) as usize;
                proof {
                    crate::word::lemma_occ_upto_le(t, t[j as int], j as int);
                    lemma_occ_split(g, t, t[j as int], j as int);
                }
                rem[li] = rem[li] + 1;
            }
            j = j + 1;
        }

        // Second pass: hand out misplaced marks while supply remains.
        let mut i2: usize = 0;
        while i2 < n
            invariant
                i2 <= n,
                n == g.len() == t.len(),
                self.state@.len() == n,
                g == guess@,
                t == target@,
                wf_word(g),
                wf_word(t),
                rem@.len() == 26,
                forall|j2: int| 0 <= j2 < i2 ==> self.state@[j2] == color_at(g, t, j2),
                forall|j2: int|
                    i2 <= j2 < n ==> self.state@[j2] == (if g[j2] == t[j2] {
                        ResultColor::Red
                    } else {
                        ResultColor::Blue
                    }),
                forall|l: int|
                    0 <= l < 26 ==> rem@[l] + yellow_occ_upto(g, t, (l + 97) as u8, i2 as int)
                        == free_occ(g, t, (l + 97) as u8),
            decreases n - i2,
        {
            let cur = self.state[i2];
            let gb = guess[i2];
            let li = (gb - 97) as usize;
            proof {
                lemma_yellow_occ_min(g, t, gb, i2 as int);
            }
            if cur == ResultColor::Blue {
                if rem[li] > 0 {
                    self.state[i2] = ResultColor::Yellow;
                    rem[li] = rem[li] - 1;
                } else {
                    proof {
                        assert(color_at(g, t, i2 as int) == ResultColor::Blue);
                    }
                }
            }
            i2 = i2 + 1;
        }
        proof {
            assert(self.state@ =~= color_seq(g, t));
        }
        Ok(())
    }

    /// The base-3 key of this color vector, used to memoise scores during
    /// the lookahead.
    pub fn state_id(&self) -> (r: usize)
        requires
            self.state@.len() <= 9,
        ensures
            r == state_id_spec(self.state@),
            r < pow3(self.state@.len() as int),
    {
        proof {
            reveal_with_fuel(pow3, 10);
        }
        let mut r: usize = 0;
        let mut i: usize = 0;
        while i < self.state.len()
            invariant
                i <= self.state@.len() <= 9,
                r == state_id_upto(self.state@, i as int),
                r < pow3(i as int),
                pow3(self.state@.len() as int) <= 19683,
            decreases self.state@.len() - i,
        {
            proof {
                lemma_pow3_mono(i as int + 1, self.state@.len() as int);
            }
            let d: usize = match self.state[i] {
                ResultColor::Red => 0,
                ResultColor::Yellow => 1,
                ResultColor::Blue => 2,
            };
            r = r * 3 + d;
            i = i + 1;
        }
        r
    }

    /// Whether every position is an exact match: the word is found.
    pub fn complet(&self) -> (r: bool)
        ensures
            r == all_red(self.state@),
    {
        let mut i: usize = 0;
        while i < self.state.len()
            invariant
                i <= self.state@.len(),
                forall|j: int| 0 <= j < i ==> self.state@[j] == ResultColor::Red,
            decreases self.state@.len() - i,
        {
            let c = self.state[i];
            if !(c == ResultColor::Red) {
                return false;
            }
            i = i + 1;
        }
        true
    }

    /// The `r`/`y`/`b` string form of the held colors.
    pub fn to_string(&self) -> (r: String)
        ensures
            r@ == render_spec(self.state@),
    {
        proof {
            reveal_strlit("r");
            reveal_strlit("y");
            reveal_strlit("b");
        }
        let mut s = String::new();
        let mut i: usize = 0;
        while i < self.state.len()
            invariant
                i <= self.state@.len(),
                s@.len() == i,
                forall|j: int| 0 <= j < i ==> s@[j] == color_char(self.state@[j]),
            decreases self.state@.len() - i,
        {
            proof {
                reveal_strlit("r");
                reveal_strlit("y");
                reveal_strlit("b");
            }
            match self.state[i] {
                ResultColor::Red => s.append("r"),
                ResultColor::Yellow => s.append("y"),
                ResultColor::Blue => s.append("b"),
            }
            i = i + 1;
        }
        proof {
            assert(s@ =~= render_spec(self.state@));
        }
        s
    }

    /// Parse a color string: `r`, `y`, `b` in either case, one character per
    /// position; any other character is reported.
    pub fn try_from(mask: &str) -> (r: Result<ResultState, ConvertError>)
        ensures
            match r {
                Ok(rs) => valid_colors(mask@) && rs.state@ == parsed_colors(mask@),
                Err(e) => {
                    &&& e matches ConvertError::InvalidChar(c) && exists|i: int|
                        0 <= i < mask@.len() && parse_color(mask@[i]) is None && c == mask@[i]
                            && (forall|j: int| 0 <= j < i ==> parse_color(mask@[j]) is Some)
                },
            },
    {
        let n = mask.unicode_len();
        let mut state: Vec<ResultColor> = Vec::new();
        let mut i: usize = 0;
        while i < n
            invariant
                i <= n,
                n == mask@.len(),
                state@.len() == i,
                forall|j: int| 0 <= j < i ==> parse_color(mask@[j]) is Some,
                forall|j: int| 0 <= j < i ==> state@[j] == parse_color(mask@[j]).unwrap(),
            decreases n - i,
        {
            let ch = mask.get_char(i);
            match ch {
                'r' | 'R' => state.push(ResultColor::Red),
                'y' | 'Y' => state.push(ResultColor::Yellow),
                'b' | 'B' => state.push(ResultColor::Blue),
                _ => {
                    return Err(ConvertError::InvalidChar(ch));
                },
            }
            i = i + 1;
        }
        proof {
            assert(state@ =~= parsed_colors(mask@));
        }
        Ok(ResultState { state })
    }
}

} // verus!
