//! Words as byte sequences over `b'a'..=b'z'`, and letter-counting
//! specifications shared by the whole crate.

use vstd::prelude::*;

verus! {

/// Every byte of the word is a lowercase letter.
pub open spec fn wf_word(w: Seq<u8>) -> bool {
    forall|i: int| 0 <= i < w.len() ==> 97 <= #[trigger] w[i] <= 122
}

/// Occurrences of the byte `c` among the first `k` bytes of `w`.
pub open spec fn occ_upto(w: Seq<u8>, c: u8, k: int) -> nat
    decreases k,
{
    if k <= 0 {
        0
    } else {
        occ_upto(w, c, k - 1) + (if w[k - 1] == c {
            1nat
        } else {
            0nat
        })
    }
}

/// Occurrences of the byte `c` in the whole word.
pub open spec fn occ(w: Seq<u8>, c: u8) -> nat {
    occ_upto(w, c, w.len() as int)
}

/// Every word of the dictionary is over lowercase letters.
pub open spec fn wf_dico(d: Seq<Vec<u8>>) -> bool {
    forall|i: int| 0 <= i < d.len() ==> wf_word((#[trigger] d[i])@)
}

/// Every word of the dictionary has length `w`.
pub open spec fn uniform_len(d: Seq<Vec<u8>>, w: int) -> bool {
    forall|i: int| 0 <= i < d.len() ==> (#[trigger] d[i])@.len() == w
}

pub proof fn lemma_occ_upto_le(w: Seq<u8>, c: u8, k: int)
    ensures
        occ_upto(w, c, k) <= (if k <= 0 {
            0int
        } else {
            k
        }),
    decreases k,
{
    if k > 0 {
        lemma_occ_upto_le(w, c, k - 1);
    }
}

/// A character outside `'a'..='z'` was found where a letter was expected.
#[derive(Debug)]
pub enum CharError {
    InvalidChar(char),
}

/// A letter together with a use flag, packed into one byte: the low bits
/// hold the letter index, the high bit whether the letter has been used.
#[derive(Clone, Copy, Debug)]
pub struct Char(u8);

impl Char {
    /// The letter index this character stands for.
    pub closed spec fn spec_letter(self) -> u8 {
        self.0 & 0x7F
    }

    /// Whether the character is flagged as used.
    pub closed spec fn spec_used(self) -> bool {
        self.0 & 0x80 != 0
    }

    pub fn used(&self) -> (r: bool)
        ensures
            r == self.spec_used(),
    {
        (self.0 & 0x80) != 0
    }

    pub fn set_use(&mut self, used: bool)
        ensures
            final(self).spec_used() == used,
            final(self).spec_letter() == old(self).spec_letter(),
    {
        proof {
            let x = self.0;
            assert((x | 0x80) & 0x80 != 0 && (x | 0x80) & 0x7F == x & 0x7F && (x & 0x7F) & 0x80
                == 0 && (x & 0x7F) & 0x7F == x & 0x7F) by (bit_vector);
        }
        if used {
            self.0 = self.0 | 0x80;
        } else {
            self.0 = self.0 & 0x7F;
        }
    }

    /// Build a character from a lowercase letter.
    pub fn from_char(value: char) -> (r: Result<Char, CharError>)
        ensures
            match r {
                Ok(c) => {
                    &&& 97 <= value as u32 <= 122
                    &&& c.spec_letter() as u32 == value as u32 - 97
                    &&& !c.spec_used()
                },
                Err(e) => {
                    &&& !(97 <= value as u32 <= 122)
                    &&& e matches CharError::InvalidChar(ch) && ch == value
                },
            },
    {
        let v = value as u32;
        if 97 <= v && v <= 122 {
            let x: u8 = (v - 97) as u8;
            proof {
                assert(x <= 25 ==> x & 0x7F == x && x & 0x80 == 0) by (bit_vector);
            }
            Ok(Char(x))
        } else {
            Err(CharError::InvalidChar(value))
        }
    }

    /// The lowercase letter this character stands for.
    pub fn to_char(&self) -> (r: char)
        requires
            self.spec_letter() <= 25,
        ensures
            r as u32 == self.spec_letter() as u32 + 97,
    {
        ((self.0 & 0x7F) + 97) as char
    }
}

/// A word as a sequence of [`Char`]s.
#[derive(Debug)]
pub struct Word {
    chars: Vec<Char>,
}

impl Word {
    /// The letter indices of the word, in order.
    pub closed spec fn spec_letters(self) -> Seq<u8> {
        self.chars@.map(|i: int, c: Char| c.spec_letter())
    }

    /// Build a word from a string of lowercase letters; the first other
    /// character is reported.
    pub fn new(data: String) -> (r: Result<Self, CharError>)
        ensures
            match r {
                Ok(wd) => {
                    &&& forall|i: int|
                        0 <= i < data@.len() ==> 97 <= (#[trigger] data@[i]) as u32 <= 122
                    &&& wd.spec_letters().len() == data@.len()
                    &&& forall|i: int|
                        0 <= i < data@.len() ==> (#[trigger] wd.spec_letters()[i]) as u32
                            == data@[i] as u32 - 97
                },
                Err(e) => {
                    &&& e matches CharError::InvalidChar(c) && exists|i: int|
                        0 <= i < data@.len() && !(97 <= (#[trigger] data@[i]) as u32 <= 122) && c
                            == data@[i] && (forall|j: int|
                            0 <= j < i ==> 97 <= (#[trigger] data@[j]) as u32 <= 122)
                },
            },
    {
        let n = data.as_str().unicode_len();
        let mut chars: Vec<Char> = Vec::new();
        let mut i: usize = 0;
        while i < n
            invariant
                i <= n,
                n == data@.len(),
                chars@.len() == i,
                forall|j: int| 0 <= j < i ==> 97 <= (#[trigger] data@[j]) as u32 <= 122,
                forall|j: int|
                    0 <= j < i ==> (#[trigger] chars@[j]).spec_letter() as u32 == data@[j] as u32
                        - 97,
            decreases n - i,
        {
            let ch = data.as_str().get_char(i);
            match Char::from_char(ch) {
                Ok(c) => chars.push(c),
                Err(e) => {
                    return Err(e);
                },
            }
            i = i + 1;
        }
        let wd = Word { chars };
        proof {
            assert(wd.spec_letters().len() == data@.len());
        }
        Ok(wd)
    }

    /// An iterator over the word's letters.
    pub fn chars(&self) -> (r: CharIte)
        ensures
            r.index == 0,
            r.vec@.map(|i: int, c: Char| c.spec_letter()) == self.spec_letters(),
    {
        CharIte { vec: &self.chars, index: 0 }
    }
}

/// A cursor over the characters of a [`Word`], yielding them as lowercase
/// letters.
pub struct CharIte<'a> {
    pub vec: &'a Vec<Char>,
    pub index: usize,
}

impl<'a> CharIte<'a> {
    /// The next letter, if any remain.
    pub fn next(&mut self) -> (r: Option<char>)
        requires
            forall|j: int|
                0 <= j < old(self).vec@.len() ==> (#[trigger] old(self).vec@[j]).spec_letter()
                    <= 25,
        ensures
            match r {
                Some(c) => {
                    &&& old(self).index < old(self).vec@.len()
                    &&& final(self).index == old(self).index + 1
                    &&& final(self).vec == old(self).vec
                    &&& c as u32 == old(self).vec@[old(self).index as int].spec_letter() as u32
                        + 97
                },
                None => {
                    &&& old(self).index >= old(self).vec@.len()
                    &&& *final(self) == *old(self)
                },
            },
    {
        if self.index < self.vec.len() {
            let c = self.vec[self.index];
            self.index = self.index + 1;
            Some(c.to_char())
        } else {
            None
        }
    }
}

} // verus!
