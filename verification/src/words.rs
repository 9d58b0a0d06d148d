//! Letters and five-letter words.
//!
//! Words enter the library as `String`s; the model of a word is its view, a
//! `Seq<char>`. A well-formed word is exactly five uppercase ASCII letters.
//! All comparisons are case-normalized at ingestion, so everything past the
//! constructor works on uppercase words only.

use vstd::prelude::*;
use vstd::string::StrSliceExecFns;

verus! {

/// A letter of the solver's alphabet: an uppercase ASCII letter.
pub open spec fn is_upper(c: char) -> bool {
    'A' <= c && c <= 'Z'
}

/// A lowercase ASCII letter.
pub open spec fn is_lower(c: char) -> bool {
    'a' <= c && c <= 'z'
}

/// A character the loader may hand in: a letter of either case.
pub open spec fn is_alpha(c: char) -> bool {
    is_upper(c) || is_lower(c)
}

/// A well-formed word: exactly five uppercase letters.
pub open spec fn wf_word(w: Seq<char>) -> bool {
    w.len() == 5 && forall|i: int| 0 <= i < 5 ==> is_upper(#[trigger] w[i])
}

/// Every word of the sequence is well-formed.
pub open spec fn wf_words(ws: Seq<Seq<char>>) -> bool {
    forall|i: int| 0 <= i < ws.len() ==> wf_word(#[trigger] ws[i])
}

/// The model of a list of words: the sequence of their views.
pub open spec fn words_view(ws: Seq<String>) -> Seq<Seq<char>> {
    ws.map_values(|w: String| w@)
}

/// The letter `c` occurs somewhere in `w`.
pub open spec fn contains_char(w: Seq<char>, c: char) -> bool {
    w.contains(c)
}

/// Some letter of `w` is among `letters`.
pub open spec fn uses_any(w: Seq<char>, letters: Seq<char>) -> bool {
    exists|i: int| 0 <= i < w.len() && letters.contains(w[i])
}

/// Case-normalization of a single character: lowercase letters map to their
/// uppercase counterparts, everything else is unchanged.
pub open spec fn spec_upper(c: char) -> char {
    if is_lower(c) {
        (c as u8 - 32) as char
    } else {
        c
    }
}

/// Case-normalization of a whole word.
pub open spec fn upper_word(w: Seq<char>) -> Seq<char> {
    w.map_values(|c: char| spec_upper(c))
}

/// The index of an uppercase letter in the alphabet, 0 for 'A' to 25 for 'Z'.
pub open spec fn letter_idx(c: char) -> int {
    c as int - 65
}

/// Uppercases one character.
pub fn upper_char(c: char) -> (r: char)
    ensures
        r == spec_upper(c),
{
    if 'a' <= c && c <= 'z' {
        (c as u8 - 32) as char
    } else {
        c
    }
}

/// Alphabet position of an uppercase letter.
pub fn letter_index(c: char) -> (r: usize)
    requires
        is_upper(c),
    ensures
        r == letter_idx(c),
        r < 26,
{
    (c as u32 - 65) as usize
}

/// The character of `w` at position `i`.
pub fn word_char(w: &String, i: usize) -> (c: char)
    requires
        i < w@.len(),
    ensures
        c == w@[i as int],
{
    w.as_str().get_char(i)
}

/// Whether the word `w` contains the letter `c`.
pub fn word_contains(w: &String, c: char) -> (r: bool)
    ensures
        r == contains_char(w@, c),
{
    let n = w.as_str().unicode_len();
    for i in 0..n
        invariant
            n == w@.len(),
            forall|j: int| 0 <= j < i ==> w@[j] != c,
    {
        if w.as_str().get_char(i) == c {
            return true;
        }
    }
    false
}

/// Whether the letter list `v` holds `c`.
pub fn chars_contain(v: &Vec<char>, c: char) -> (r: bool)
    ensures
        r == v@.contains(c),
{
    for i in 0..v.len()
        invariant
            forall|j: int| 0 <= j < i ==> v@[j] != c,
    {
        if v[i] == c {
            return true;
        }
    }
    false
}

/// Whether some letter of `w` appears among `letters`.
pub fn word_uses_any(w: &String, letters: &Vec<char>) -> (r: bool)
    ensures
        r == uses_any(w@, letters@),
{
    let n = w.as_str().unicode_len();
    for i in 0..n
        invariant
            n == w@.len(),
            forall|j: int| 0 <= j < i ==> !letters@.contains(w@[j]),
    {
        if chars_contain(letters, w.as_str().get_char(i)) {
            return true;
        }
    }
    false
}

/// Whether two words read the same.
pub fn word_eq(a: &String, b: &String) -> (r: bool)
    ensures
        r == (a@ == b@),
{
    a.eq(b)
}

/// Whether the word `w` reads as the letter list `t`.
pub fn word_eq_chars(w: &String, t: &Vec<char>) -> (r: bool)
    ensures
        r == (w@ == t@),
{
    let n = w.as_str().unicode_len();
    if n != t.len() {
        return false;
    }
    for i in 0..n
        invariant
            n == w@.len(),
            n == t@.len(),
            forall|j: int| 0 <= j < i ==> w@[j] == t@[j],
    {
        if w.as_str().get_char(i) != t[i] {
            return false;
        }
    }
    proof {
        assert(w@ =~= t@);
    }
    true
}

/// Case-normalizes a word handed in by the loader into its letter list.
pub fn uppercase_word(s: &String) -> (out: Vec<char>)
    ensures
        out@ == upper_word(s@),
{
    let n = s.as_str().unicode_len();
    let mut out: Vec<char> = Vec::new();
    for i in 0..n
        invariant
            n == s@.len(),
            out@.len() == i,
            forall|j: int| 0 <= j < i ==> out@[j] == spec_upper(s@[j]),
    {
        out.push(upper_char(s.as_str().get_char(i)));
    }
    proof {
        assert(out@ =~= upper_word(s@));
    }
    out
}

/// An independent copy of a word list, equal to the original word for word.
pub fn copy_words(v: &Vec<String>) -> (out: Vec<String>)
    ensures
        out@ == v@,
{
    let mut out: Vec<String> = Vec::new();
    for i in 0..v.len()
        invariant
            out@.len() == i,
            forall|j: int| 0 <= j < i ==> out@[j] == v@[j],
    {
        out.push(v[i].clone());
    }
    proof {
        assert(out@ =~= v@);
    }
    out
}

/// An independent copy of a list of plain (copyable) values.
pub fn copy_plain<T: Copy>(v: &Vec<T>) -> (out: Vec<T>)
    ensures
        out@ == v@,
{
    let mut out: Vec<T> = Vec::new();
    for i in 0..v.len()
        invariant
            out@.len() == i,
            forall|j: int| 0 <= j < i ==> out@[j] == v@[j],
    {
        out.push(v[i]);
    }
    proof {
        assert(out@ =~= v@);
    }
    out
}

} // verus!
