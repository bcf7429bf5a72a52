//! The verified side of dictionary loading: validating lines and turning
//! those of the wanted length into byte words.  Reading the file itself is
//! the caller's business.

use vstd::prelude::*;
use vstd::string::StrSliceExecFns;

verus! {

/// What can go wrong with a dictionary: a non-letter character on some
/// line, a missing file for the starter letter, or a failed read.
#[derive(Debug)]
pub enum DicoError {
    InvalidChar(usize, char),
    NoFile(char),
    ReadingFile,
}

/// Every character of the line is a lowercase letter.
pub open spec fn valid_line(s: Seq<char>) -> bool {
    forall|i: int| 0 <= i < s.len() ==> 97 <= (#[trigger] s[i]) as u32 <= 122
}

/// The line as bytes, one per letter.
pub open spec fn line_bytes(s: Seq<char>) -> Seq<u8> {
    Seq::new(s.len(), |i: int| ((s[i] as u32) as u8))
}

/// The words kept from the first `k` lines: those of length `wl`, in
/// order, as byte words.
pub open spec fn collect_spec(lines: Seq<String>, wl: int, k: int) -> Seq<Seq<u8>>
    decreases k,
{
    if k <= 0 {
        Seq::empty()
    } else {
        let prev = collect_spec(lines, wl, k - 1);
        if lines[k - 1]@.len() == wl {
            prev.push(line_bytes(lines[k - 1]@))
        } else {
            prev
        }
    }
}

/// Check that a word is entirely lowercase letters; the first other
/// character is handed back.
pub fn is_valid_word(word: &str) -> (r: Result<(), char>)
    ensures
        match r {
            Ok(()) => valid_line(word@),
            Err(c) => exists|i: int|
                0 <= i < word@.len() && !(97 <= (#[trigger] word@[i]) as u32 <= 122) && c
                    == word@[i] && (forall|j: int|
                    0 <= j < i ==> 97 <= (#[trigger] word@[j]) as u32 <= 122),
        },
{
    let n = word.unicode_len();
    let mut i: usize = 0;
    while i < n
        invariant
            i <= n,
            n == word@.len(),
            forall|j: int| 0 <= j < i ==> 97 <= (#[trigger] word@[j]) as u32 <= 122,
        decreases n - i,
    {
        let ch = word.get_char(i);
        let v = ch as u32;
        if !(97 <= v && v <= 122) {
            return Err(ch);
        }
        i = i + 1;
    }
    Ok(())
}

/// Keep the lines of length `word_len`, validate them, and return them as
/// byte words; the first invalid character among the kept lines is reported
/// with its one-based line number.
pub fn collect_words(lines: &Vec<String>, word_len: usize) -> (r: Result<Vec<Vec<u8>>, DicoError>)
    ensures
        match r {
            Ok(words) => {
                &&& forall|i: int|
                    0 <= i < lines@.len() && (#[trigger] lines@[i])@.len() == word_len
                        ==> valid_line(lines@[i]@)
                &&& words@.len() == collect_spec(lines@, word_len as int, lines@.len() as int).len()
                &&& forall|i: int|
                    0 <= i < words@.len() ==> (#[trigger] words@[i])@ == collect_spec(
                        lines@,
                        word_len as int,
                        lines@.len() as int,
                    )[i]
                &&& crate::word::wf_dico(words@)
                &&& crate::word::uniform_len(words@, word_len as int)
            },
            Err(e) => {
                &&& e matches DicoError::InvalidChar(ln, c) && exists|i: int|
                    0 <= i < lines@.len() && (#[trigger] lines@[i])@.len() == word_len
                        && !valid_line(lines@[i]@) && ln == i + 1 && (forall|j: int|
                        0 <= j < i && (#[trigger] lines@[j])@.len() == word_len ==> valid_line(
                            lines@[j]@,
                        )) && (exists|p: int|
                        0 <= p < lines@[i]@.len() && !(97 <= (#[trigger] lines@[i]@[p]) as u32
                            <= 122) && c == lines@[i]@[p])
            },
        },
{
    let n = lines.len();
    let mut words: Vec<Vec<u8>> = Vec::new();
    let mut i: usize = 0;
    while i < n
        invariant
            i <= n,
            n == lines@.len() <= usize::MAX,
            forall|j: int|
                0 <= j < i && (#[trigger] lines@[j])@.len() == word_len ==> valid_line(
                    lines@[j]@,
                ),
            words@.len() == collect_spec(lines@, word_len as int, i as int).len(),
            forall|j: int|
                0 <= j < words@.len() ==> (#[trigger] words@[j])@ == collect_spec(
                    lines@,
                    word_len as int,
                    i as int,
                )[j],
            crate::word::wf_dico(words@),
            crate::word::uniform_len(words@, word_len as int),
        decreases n - i,
    {
        let line: &String = &lines[i];
        if line.as_str().unicode_len() == word_len {
            match is_valid_word(line.as_str()) {
                Err(c) => {
                    return Err(DicoError::InvalidChar(i + 1, c));
                },
                Ok(()) => {},
            }
            let m = line.as_str().unicode_len();
            let mut bytes: Vec<u8> = Vec::new();
            let mut p: usize = 0;
            while p < m
                invariant
                    p <= m,
                    m == line@.len(),
                    valid_line(line@),
                    bytes@.len() == p,
                    forall|q: int|
                        0 <= q < p ==> (#[trigger] bytes@[q]) == ((line@[q] as u32) as u8),
                decreases m - p,
            {
                let ch = line.as_str().get_char(p);
                let cv = ch as u32;
                bytes.push(cv as u8);
                p = p + 1;
            }
            proof {
                assert(bytes@ =~= line_bytes(line@));
                assert(crate::word::wf_word(bytes@)) by {
                    assert forall|q: int| 0 <= q < bytes@.len() implies 97 <= #[trigger] bytes@[q]
                        <= 122 by {
                        assert(97 <= line@[q] as u32 <= 122);
                    }
                }
                let neww = words@.push(bytes);
                assert forall|j: int| 0 <= j < neww.len() implies crate::word::wf_word(
                    (#[trigger] neww[j])@,
                ) by {
                    if j < words@.len() {
                        assert(neww[j] == words@[j]);
                    } else {
                        assert(neww[j] == bytes);
                    }
                }
                assert forall|j: int| 0 <= j < neww.len() implies (#[trigger] neww[j])@.len()
                    == word_len by {
                    if j < words@.len() {
                        assert(neww[j] == words@[j]);
                    } else {
                        assert(neww[j] == bytes);
                    }
                }
            }
            words.push(bytes);
        }
        i = i + 1;
    }
    Ok(words)
}

} // verus!
