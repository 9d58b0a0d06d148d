//! Letter-frequency model and pool ranking.
//!
//! From the answer corpus the library builds a global letter-occurrence
//! count and a per-position count for each of the five word positions.
//! An answer word is scored by summing, over its distinct letters, the
//! maximum positional count among that letter's occurrences; a guess word
//! is scored the same way but with the global counts. Each pool is then
//! sorted by descending score, corpus order deciding ties.

use vstd::prelude::*;
use crate::words::{is_upper, letter_idx, letter_index, wf_word, wf_words, word_char, words_view};

verus! {

/// Largest corpus the scorer accepts; keeps every count and score far from
/// the integer limits.
pub const CORPUS_LIMIT: usize = 0x100_0000;

/// How often letter `c` occurs at position `p` over the corpus `ws`.
pub open spec fn pos_count(ws: Seq<Seq<char>>, p: int, c: char) -> nat
    decreases ws.len(),
{
    if ws.len() == 0 {
        0
    } else {
        pos_count(ws.drop_last(), p, c) + if ws.last()[p] == c {
            1nat
        } else {
            0nat
        }
    }
}

/// How often letter `c` occurs among the first `n` positions of the word `w`.
pub open spec fn count_in_word(w: Seq<char>, c: char, n: int) -> nat
    decreases n,
{
    if n <= 0 {
        0
    } else {
        count_in_word(w, c, n - 1) + if w[n - 1] == c {
            1nat
        } else {
            0nat
        }
    }
}

/// How often letter `c` occurs anywhere in the corpus `ws`.
pub open spec fn global_count(ws: Seq<Seq<char>>, c: char) -> nat
    decreases ws.len(),
{
    if ws.len() == 0 {
        0
    } else {
        global_count(ws.drop_last(), c) + count_in_word(ws.last(), c, 5)
    }
}

/// Position `i` is the first occurrence of its letter within `w`.
pub open spec fn first_occurrence(w: Seq<char>, i: int) -> bool {
    forall|j: int| 0 <= j < i ==> w[j] != w[i]
}

/// The best positional count of letter `c` among its occurrences in the
/// first `n` positions of `w`.
pub open spec fn best_pos_count(ws: Seq<Seq<char>>, w: Seq<char>, c: char, n: int) -> nat
    decreases n,
{
    if n <= 0 {
        0
    } else {
        let prev = best_pos_count(ws, w, c, n - 1);
        if w[n - 1] == c && pos_count(ws, n - 1, c) > prev {
            pos_count(ws, n - 1, c)
        } else {
            prev
        }
    }
}

/// Partial sum of the positional score of `w` over its first `n` positions:
/// each distinct letter contributes, at its first occurrence, its best
/// positional count.
pub open spec fn answer_score_upto(ws: Seq<Seq<char>>, w: Seq<char>, n: int) -> nat
    decreases n,
{
    if n <= 0 {
        0
    } else {
        answer_score_upto(ws, w, n - 1) + if first_occurrence(w, n - 1) {
            best_pos_count(ws, w, w[n - 1], 5)
        } else {
            0nat
        }
    }
}

/// The positional score of an answer word.
pub open spec fn answer_score(ws: Seq<Seq<char>>, w: Seq<char>) -> nat {
    answer_score_upto(ws, w, 5)
}

/// Partial sum of the global score of `w`: each distinct letter contributes
/// its global count once.
pub open spec fn guess_score_upto(ws: Seq<Seq<char>>, w: Seq<char>, n: int) -> nat
    decreases n,
{
    if n <= 0 {
        0
    } else {
        guess_score_upto(ws, w, n - 1) + if first_occurrence(w, n - 1) {
            global_count(ws, w[n - 1])
        } else {
            0nat
        }
    }
}

/// The global score of a guess word.
pub open spec fn guess_score(ws: Seq<Seq<char>>, w: Seq<char>) -> nat {
    guess_score_upto(ws, w, 5)
}

/// A positional count never exceeds the corpus size.
pub proof fn lemma_pos_count_le(ws: Seq<Seq<char>>, p: int, c: char)
    ensures
        pos_count(ws, p, c) <= ws.len(),
    decreases ws.len(),
{
    if ws.len() > 0 {
        lemma_pos_count_le(ws.drop_last(), p, c);
    }
}

/// A letter occurs at most `n` times among `n` positions.
pub proof fn lemma_count_in_word_le(w: Seq<char>, c: char, n: int)
    ensures
        count_in_word(w, c, n) <= if n <= 0 {
            0int
        } else {
            n
        },
    decreases n,
{
    if n > 0 {
        lemma_count_in_word_le(w, c, n - 1);
    }
}

/// A global count never exceeds five letters per corpus word.
pub proof fn lemma_global_count_le(ws: Seq<Seq<char>>, c: char)
    ensures
        global_count(ws, c) <= 5 * ws.len(),
    decreases ws.len(),
{
    if ws.len() > 0 {
        lemma_global_count_le(ws.drop_last(), c);
        lemma_count_in_word_le(ws.last(), c, 5);
    }
}

/// The best positional count never exceeds the corpus size.
pub proof fn lemma_best_pos_count_le(ws: Seq<Seq<char>>, w: Seq<char>, c: char, n: int)
    ensures
        best_pos_count(ws, w, c, n) <= ws.len(),
    decreases n,
{
    if n > 0 {
        lemma_best_pos_count_le(ws, w, c, n - 1);
        lemma_pos_count_le(ws, n - 1, c);
    }
}

/// An answer score is at most `n` corpus sizes after `n` positions.
pub proof fn lemma_answer_score_le(ws: Seq<Seq<char>>, w: Seq<char>, n: int)
    ensures
        answer_score_upto(ws, w, n) <= if n <= 0 {
            0int
        } else {
            n * ws.len()
        },
    decreases n,
{
    if n > 0 {
        lemma_answer_score_le(ws, w, n - 1);
        lemma_best_pos_count_le(ws, w, w[n - 1], 5);
        assert((n - 1) * ws.len() + ws.len() == n * ws.len()) by (nonlinear_arith);
    }
}

/// A guess score is at most five corpus words' worth of letters per position.
pub proof fn lemma_guess_score_le(ws: Seq<Seq<char>>, w: Seq<char>, n: int)
    ensures
        guess_score_upto(ws, w, n) <= if n <= 0 {
            0int
        } else {
            n * 5 * ws.len()
        },
    decreases n,
{
    if n > 0 {
        lemma_guess_score_le(ws, w, n - 1);
        lemma_global_count_le(ws, w[n - 1]);
        assert((n - 1) * 5 * ws.len() + 5 * ws.len() == n * 5 * ws.len()) by (nonlinear_arith);
    }
}

/// The frequency model of a corpus: 26 global letter counts, and five rows
/// of 26 positional counts kept flat, row `p` at indices `p * 26 .. p * 26 + 26`.
pub struct Tables {
    pub global: Vec<u64>,
    pub positional: Vec<u64>,
}

/// The tables hold exactly the counts of the corpus `ws`.
pub open spec fn tables_ok(t: Tables, ws: Seq<Seq<char>>) -> bool {
    &&& t.global@.len() == 26
    &&& t.positional@.len() == 130
    &&& forall|c: char|
        is_upper(c) ==> #[trigger] t.global@[letter_idx(c)] == global_count(ws, c)
    &&& forall|p: int, c: char|
        0 <= p < 5 && is_upper(c) ==> #[trigger] t.positional@[p * 26 + letter_idx(c)]
            == pos_count(ws, p, c)
}

/// Counts every letter occurrence of the answer corpus, globally and per
/// position.
pub fn build_tables(answers: &Vec<String>, Ghost(ws): Ghost<Seq<Seq<char>>>) -> (t: Tables)
    requires
        ws == words_view(answers@),
        wf_words(ws),
        answers@.len() <= CORPUS_LIMIT,
    ensures
        tables_ok(t, ws),
{
    let mut global: Vec<u64> = vec![0u64; 26];
    let mut positional: Vec<u64> = vec![0u64; 130];
    proof {
        assert(ws.take(0) =~= Seq::<Seq<char>>::empty());
    }
    for wi in 0..answers.len()
        invariant
            ws == words_view(answers@),
            wf_words(ws),
            answers@.len() <= CORPUS_LIMIT,
            global@.len() == 26,
            positional@.len() == 130,
            forall|c: char|
                is_upper(c) ==> #[trigger] global@[letter_idx(c)] == global_count(
                    ws.take(wi as int),
                    c,
                ),
            forall|p: int, c: char|
                0 <= p < 5 && is_upper(c) ==> #[trigger] positional@[p * 26 + letter_idx(c)]
                    == pos_count(ws.take(wi as int), p, c),
    {
        let ghost prefix = ws.take(wi as int);
        let ghost w = ws[wi as int];
        assert(w == answers@[wi as int]@);
        for p in 0..5
            invariant
                ws == words_view(answers@),
                wf_words(ws),
                answers@.len() <= CORPUS_LIMIT,
                wi < answers@.len(),
                prefix == ws.take(wi as int),
                w == ws[wi as int],
                w == answers@[wi as int]@,
                global@.len() == 26,
                positional@.len() == 130,
                forall|c: char|
                    is_upper(c) ==> #[trigger] global@[letter_idx(c)] == global_count(prefix, c)
                        + count_in_word(w, c, p as int),
                forall|q: int, c: char|
                    0 <= q < 5 && is_upper(c) ==> #[trigger] positional@[q * 26 + letter_idx(c)]
                        == pos_count(prefix, q, c) + (if q < p && w[q] == c {
                        1nat
                    } else {
                        0nat
                    }),
        {
            let c = word_char(&answers[wi], p);
            assert(c == w[p as int]);
            assert(is_upper(c));
            let idx = letter_index(c);
            proof {
                lemma_global_count_le(prefix, c);
                lemma_count_in_word_le(w, c, p as int);
                lemma_pos_count_le(prefix, p as int, c);
            }
            let g = global[idx];
            global[idx] = g + 1;
            let pdx = p * 26 + idx;
            let q = positional[pdx];
            positional[pdx] = q + 1;
        }
        proof {
            assert(ws.take(wi + 1).drop_last() =~= prefix);
            assert(ws.take(wi + 1).last() == w);
            assert forall|c: char| is_upper(c) implies #[trigger] global@[letter_idx(c)]
                == global_count(ws.take(wi + 1), c) by {
                assert(global_count(ws.take(wi + 1), c) == global_count(prefix, c)
                    + count_in_word(w, c, 5));
            }
            assert forall|p: int, c: char| 0 <= p < 5 && is_upper(c) implies #[trigger] positional@[
                p * 26 + letter_idx(c)] == pos_count(ws.take(wi + 1), p, c) by {
                assert(pos_count(ws.take(wi + 1), p, c) == pos_count(prefix, p, c) + (if w[p] == c {
                    1nat
                } else {
                    0nat
                }));
            }
        }
    }
    proof {
        assert(ws.take(answers@.len() as int) =~= ws);
    }
    Tables { global, positional }
}

/// Whether position `i` holds the first occurrence of its letter in `w`.
fn first_occurrence_at(w: &String, i: usize) -> (r: bool)
    requires
        i < w@.len(),
    ensures
        r == first_occurrence(w@, i as int),
{
    let c = word_char(w, i);
    for j in 0..i
        invariant
            i < w@.len(),
            c == w@[i as int],
            forall|k: int| 0 <= k < j ==> w@[k] != w@[i as int],
    {
        if word_char(w, j) == c {
            return false;
        }
    }
    true
}

/// The positional score of an answer word against the modeled corpus.
fn score_answer(t: &Tables, w: &String, Ghost(ws): Ghost<Seq<Seq<char>>>) -> (s: u64)
    requires
        tables_ok(*t, ws),
        wf_word(w@),
        ws.len() <= CORPUS_LIMIT,
    ensures
        s == answer_score(ws, w@),
{
    let mut s: u64 = 0;
    for i in 0..5usize
        invariant
            tables_ok(*t, ws),
            wf_word(w@),
            ws.len() <= CORPUS_LIMIT,
            s == answer_score_upto(ws, w@, i as int),
    {
        proof {
            lemma_answer_score_le(ws, w@, i as int);
        }
        if first_occurrence_at(w, i) {
            let c = word_char(w, i);
            let idx = letter_index(c);
            let mut m: u64 = 0;
            for p in 0..5usize
                invariant
                    tables_ok(*t, ws),
                    wf_word(w@),
                    ws.len() <= CORPUS_LIMIT,
                    i < 5,
                    c == w@[i as int],
                    idx == letter_idx(c),
                    m == best_pos_count(ws, w@, c, p as int),
                    m <= ws.len(),
            {
                proof {
                    lemma_pos_count_le(ws, p as int, c);
                }
                if word_char(w, p) == c {
                    let pc = t.positional[p * 26 + idx];
                    if pc > m {
                        m = pc;
                    }
                }
            }
            proof {
                assert(i as int * ws.len() <= 4 * CORPUS_LIMIT) by (nonlinear_arith)
                    requires
                        0 <= i < 5,
                        ws.len() <= CORPUS_LIMIT,
                ;
            }
            s = s + m;
        }
    }
    s
}

/// The global score of a guess word against the modeled corpus.
fn score_guess(t: &Tables, w: &String, Ghost(ws): Ghost<Seq<Seq<char>>>) -> (s: u64)
    requires
        tables_ok(*t, ws),
        wf_word(w@),
        ws.len() <= CORPUS_LIMIT,
    ensures
        s == guess_score(ws, w@),
{
    let mut s: u64 = 0;
    for i in 0..5usize
        invariant
            tables_ok(*t, ws),
            wf_word(w@),
            ws.len() <= CORPUS_LIMIT,
            s == guess_score_upto(ws, w@, i as int),
    {
        proof {
            lemma_guess_score_le(ws, w@, i as int);
            lemma_global_count_le(ws, w@[i as int]);
        }
        if first_occurrence_at(w, i) {
            let c = word_char(w, i);
            let idx = letter_index(c);
            proof {
                assert(i as int * 5 * ws.len() <= 20 * CORPUS_LIMIT) by (nonlinear_arith)
                    requires
                        0 <= i < 5,
                        ws.len() <= CORPUS_LIMIT,
                ;
            }
            s = s + t.global[idx];
        }
    }
    s
}

/// Stable descending insertion of `w` into `r` under the score `key`:
/// `w` goes after every word whose score is at least its own.
pub open spec fn insert_desc(
    r: Seq<Seq<char>>,
    w: Seq<char>,
    key: spec_fn(Seq<char>) -> nat,
) -> Seq<Seq<char>>
    decreases r.len(),
{
    if r.len() == 0 {
        seq![w]
    } else if key(r[0]) >= key(w) {
        seq![r[0]] + insert_desc(r.drop_first(), w, key)
    } else {
        seq![w] + r
    }
}

/// The ranking of a corpus: words sorted by descending score, corpus order
/// deciding ties.
pub open spec fn rank_by(ws: Seq<Seq<char>>, key: spec_fn(Seq<char>) -> nat) -> Seq<Seq<char>>
    decreases ws.len(),
{
    if ws.len() == 0 {
        Seq::empty()
    } else {
        insert_desc(rank_by(ws.drop_last(), key), ws.last(), key)
    }
}

/// The answer pool of a corpus: the corpus ranked by positional score.
pub open spec fn rank_answers_spec(ws: Seq<Seq<char>>) -> Seq<Seq<char>> {
    rank_by(ws, |w: Seq<char>| answer_score(ws, w))
}

/// The guess pool: the guess corpus ranked by global score against the
/// answer corpus `ws`.
pub open spec fn rank_guessables_spec(ws: Seq<Seq<char>>, gs: Seq<Seq<char>>) -> Seq<Seq<char>> {
    rank_by(gs, |w: Seq<char>| guess_score(ws, w))
}

/// Inserting one word grows the ranking by one and adds exactly that word.
pub proof fn lemma_insert_desc_membership(
    r: Seq<Seq<char>>,
    w: Seq<char>,
    key: spec_fn(Seq<char>) -> nat,
)
    ensures
        insert_desc(r, w, key).len() == r.len() + 1,
        forall|x: Seq<char>|
            #[trigger] insert_desc(r, w, key).contains(x) <==> (r.contains(x) || x == w),
    decreases r.len(),
{
    let out = insert_desc(r, w, key);
    if r.len() == 0 {
        assert forall|x: Seq<char>| #[trigger] out.contains(x) implies (r.contains(x) || x == w)
            by {
            assert(out[choose|i: int| 0 <= i < out.len() && out[i] == x] == x);
        }
        assert(out.contains(w)) by {
            assert(out[0] == w);
        }
    } else if key(r[0]) >= key(w) {
        lemma_insert_desc_membership(r.drop_first(), w, key);
        let sub = insert_desc(r.drop_first(), w, key);
        assert(out == seq![r[0]] + sub);
        assert forall|x: Seq<char>| #[trigger] out.contains(x) implies (r.contains(x) || x == w)
            by {
            let i = choose|i: int| 0 <= i < out.len() && out[i] == x;
            if i == 0 {
                assert(r[0] == x);
            } else {
                assert(sub[i - 1] == x);
                assert(sub.contains(x));
                if r.drop_first().contains(x) {
                    let j = choose|j: int| 0 <= j < r.drop_first().len() && r.drop_first()[j] == x;
                    assert(r[j + 1] == x);
                }
            }
        }
        assert forall|x: Seq<char>| r.contains(x) || x == w implies #[trigger] out.contains(x) by {
            if x == w || r.drop_first().contains(x) {
                assert(sub.contains(x));
                let j = choose|j: int| 0 <= j < sub.len() && sub[j] == x;
                assert(out[j + 1] == x);
            } else {
                let i = choose|i: int| 0 <= i < r.len() && r[i] == x;
                if i == 0 {
                    assert(out[0] == x);
                } else {
                    assert(r.drop_first()[i - 1] == x);
                    assert(r.drop_first().contains(x));
                }
            }
        }
    } else {
        assert(out == seq![w] + r);
        assert forall|x: Seq<char>| #[trigger] out.contains(x) implies (r.contains(x) || x == w)
            by {
            let i = choose|i: int| 0 <= i < out.len() && out[i] == x;
            if i > 0 {
                assert(r[i - 1] == x);
            }
        }
        assert forall|x: Seq<char>| r.contains(x) || x == w implies #[trigger] out.contains(x) by {
            if x == w {
                assert(out[0] == x);
            } else {
                let i = choose|i: int| 0 <= i < r.len() && r[i] == x;
                assert(out[i + 1] == x);
            }
        }
    }
}

/// A ranking is a reordering: same length, same words.
pub proof fn lemma_rank_by_membership(ws: Seq<Seq<char>>, key: spec_fn(Seq<char>) -> nat)
    ensures
        rank_by(ws, key).len() == ws.len(),
        forall|x: Seq<char>| #[trigger] rank_by(ws, key).contains(x) <==> ws.contains(x),
    decreases ws.len(),
{
    if ws.len() > 0 {
        lemma_rank_by_membership(ws.drop_last(), key);
        lemma_insert_desc_membership(rank_by(ws.drop_last(), key), ws.last(), key);
        assert forall|x: Seq<char>| #[trigger] rank_by(ws, key).contains(x) implies ws.contains(x)
            by {
            if x == ws.last() {
                assert(ws[ws.len() - 1] == x);
            } else {
                assert(ws.drop_last().contains(x));
                let i = choose|i: int| 0 <= i < ws.drop_last().len() && ws.drop_last()[i] == x;
                assert(ws[i] == x);
            }
        }
        assert forall|x: Seq<char>| ws.contains(x) implies #[trigger] rank_by(ws, key).contains(x)
            by {
            let i = choose|i: int| 0 <= i < ws.len() && ws[i] == x;
            if i < ws.len() - 1 {
                assert(ws.drop_last()[i] == x);
                assert(ws.drop_last().contains(x));
            }
        }
    }
}

/// A pool sorted by descending score under `key`.
pub open spec fn sorted_desc_by(s: Seq<Seq<char>>, key: spec_fn(Seq<char>) -> nat) -> bool {
    forall|k: int, l: int| 0 <= k < l < s.len() ==> key(#[trigger] s[k]) >= key(#[trigger] s[l])
}

/// Stable insertion keeps a pool sorted by descending score.
pub proof fn lemma_insert_desc_sorted(
    r: Seq<Seq<char>>,
    w: Seq<char>,
    key: spec_fn(Seq<char>) -> nat,
)
    requires
        sorted_desc_by(r, key),
    ensures
        sorted_desc_by(insert_desc(r, w, key), key),
    decreases r.len(),
{
    let out = insert_desc(r, w, key);
    if r.len() == 0 {
    } else if key(r[0]) >= key(w) {
        assert(sorted_desc_by(r.drop_first(), key)) by {
            assert forall|k: int, l: int| 0 <= k < l < r.drop_first().len() implies key(
                #[trigger] r.drop_first()[k],
            ) >= key(#[trigger] r.drop_first()[l]) by {
                assert(r.drop_first()[k] == r[k + 1]);
                assert(r.drop_first()[l] == r[l + 1]);
            }
        }
        lemma_insert_desc_sorted(r.drop_first(), w, key);
        lemma_insert_desc_membership(r.drop_first(), w, key);
        let sub = insert_desc(r.drop_first(), w, key);
        assert(out == seq![r[0]] + sub);
        assert forall|k: int, l: int| 0 <= k < l < out.len() implies key(#[trigger] out[k]) >= key(
            #[trigger] out[l],
        ) by {
            if k == 0 {
                assert(out[0] == r[0]);
                assert(out[l] == sub[l - 1]);
                assert(sub.contains(sub[l - 1]));
                if sub[l - 1] == w {
                } else {
                    assert(r.drop_first().contains(sub[l - 1]));
                    let m = choose|m: int|
                        0 <= m < r.drop_first().len() && r.drop_first()[m] == sub[l - 1];
                    assert(r[m + 1] == sub[l - 1]);
                    assert(key(r[0]) >= key(r[m + 1]));
                }
            } else {
                assert(out[k] == sub[k - 1]);
                assert(out[l] == sub[l - 1]);
            }
        }
    } else {
        assert(out == seq![w] + r);
        assert forall|k: int, l: int| 0 <= k < l < out.len() implies key(#[trigger] out[k]) >= key(
            #[trigger] out[l],
        ) by {
            if k == 0 {
                assert(out[0] == w);
                assert(out[l] == r[l - 1]);
                if l > 1 {
                    assert(key(r[0]) >= key(r[l - 1]));
                }
            } else {
                assert(out[k] == r[k - 1]);
                assert(out[l] == r[l - 1]);
            }
        }
    }
}

/// A ranked pool is sorted by descending score.
pub proof fn lemma_rank_by_sorted(ws: Seq<Seq<char>>, key: spec_fn(Seq<char>) -> nat)
    ensures
        sorted_desc_by(rank_by(ws, key), key),
    decreases ws.len(),
{
    if ws.len() > 0 {
        lemma_rank_by_sorted(ws.drop_last(), key);
        lemma_insert_desc_sorted(rank_by(ws.drop_last(), key), ws.last(), key);
    }
}

/// Where the scan of a ranking stops, the new word goes: splitting the
/// ranking there is exactly the stable insertion.
pub proof fn lemma_insert_desc_at(
    r: Seq<Seq<char>>,
    w: Seq<char>,
    key: spec_fn(Seq<char>) -> nat,
    j: int,
)
    requires
        0 <= j <= r.len(),
        forall|k: int| 0 <= k < j ==> key(#[trigger] r[k]) >= key(w),
        j < r.len() ==> key(r[j]) < key(w),
    ensures
        insert_desc(r, w, key) =~= r.take(j) + seq![w] + r.skip(j),
    decreases j,
{
    if j == 0 {
        if r.len() == 0 {
            assert(insert_desc(r, w, key) =~= seq![w]);
        } else {
            assert(key(r[0]) < key(w));
        }
    } else {
        assert(key(r[0]) >= key(w));
        lemma_insert_desc_at(r.drop_first(), w, key, j - 1);
        assert(insert_desc(r, w, key) == seq![r[0]] + insert_desc(r.drop_first(), w, key));
        assert(seq![r[0]] + (r.drop_first().take(j - 1) + seq![w] + r.drop_first().skip(j - 1))
            =~= r.take(j) + seq![w] + r.skip(j));
    }
}

/// The word list a scored pair list carries.
pub open spec fn pair_words(ps: Seq<(u64, String)>) -> Seq<Seq<char>> {
    ps.map_values(|p: (u64, String)| p.1@)
}

/// Insertion sort of scored words: descending by score, earlier-scored
/// first on ties.
fn sort_pairs(pairs: &Vec<(u64, String)>, Ghost(key): Ghost<spec_fn(Seq<char>) -> nat>) -> (out:
    Vec<(u64, String)>)
    requires
        forall|i: int| 0 <= i < pairs@.len() ==> (#[trigger] pairs@[i]).0 == key(pairs@[i].1@),
    ensures
        pair_words(out@) == rank_by(pair_words(pairs@), key),
        forall|i: int| 0 <= i < out@.len() ==> (#[trigger] out@[i]).0 == key(out@[i].1@),
{
    let ghost full = pair_words(pairs@);
    let mut out: Vec<(u64, String)> = Vec::new();
    proof {
        assert(full.take(0) =~= Seq::<Seq<char>>::empty());
        assert(pair_words(out@) =~= Seq::<Seq<char>>::empty());
    }
    for i in 0..pairs.len()
        invariant
            full == pair_words(pairs@),
            forall|k: int| 0 <= k < pairs@.len() ==> (#[trigger] pairs@[k]).0 == key(pairs@[k].1@),
            forall|k: int| 0 <= k < out@.len() ==> (#[trigger] out@[k]).0 == key(out@[k].1@),
            pair_words(out@) == rank_by(full.take(i as int), key),
    {
        let s = pairs[i].0;
        let w = pairs[i].1.clone();
        assert(w@ == full[i as int]);
        assert(s == key(w@));
        let ghost r = pair_words(out@);
        let mut j: usize = 0;
        while j < out.len() && out[j].0 >= s
            invariant
                j <= out@.len(),
                r == pair_words(out@),
                forall|k: int| 0 <= k < out@.len() ==> (#[trigger] out@[k]).0 == key(out@[k].1@),
                forall|k: int| 0 <= k < j ==> key(#[trigger] r[k]) >= key(w@),
                s == key(w@),
            decreases out@.len() - j,
        {
            assert(key(r[j as int]) >= key(w@)) by {
                assert(out@[j as int].0 >= s);
            }
            j = j + 1;
        }
        proof {
            if j < out@.len() {
                assert(out@[j as int].0 < s);
                assert(key(r[j as int]) < key(w@));
            }
            lemma_insert_desc_at(r, w@, key, j as int);
        }
        let ghost prev = out@;
        out.insert(j, (s, w));
        proof {
            assert(pair_words(out@) =~= r.take(j as int) + seq![w@] + r.skip(j as int)) by {
                assert(out@ == prev.insert(j as int, (s, w)));
            }
            assert(full.take(i + 1).drop_last() =~= full.take(i as int));
            assert(full.take(i + 1).last() == w@);
            assert(rank_by(full.take(i + 1), key) == insert_desc(
                rank_by(full.take(i as int), key),
                w@,
                key,
            ));
        }
    }
    proof {
        assert(full.take(pairs@.len() as int) =~= full);
    }
    out
}

/// Scores, ranks and returns the two starting pools: answers by positional
/// score, guessables by global score, both over the answer corpus.
pub fn rank_pools(answers: &Vec<String>, guessables: &Vec<String>) -> (r: (Vec<String>, Vec<
    String,
>))
    requires
        wf_words(words_view(answers@)),
        wf_words(words_view(guessables@)),
        answers@.len() <= CORPUS_LIMIT,
    ensures
        words_view(r.0@) == rank_answers_spec(words_view(answers@)),
        words_view(r.1@) == rank_guessables_spec(words_view(answers@), words_view(guessables@)),
        wf_words(words_view(r.0@)),
        wf_words(words_view(r.1@)),
{
    let ghost ws = words_view(answers@);
    let ghost gs = words_view(guessables@);
    let t = build_tables(answers, Ghost(ws));
    let ghost akey = |w: Seq<char>| answer_score(ws, w);
    let ghost gkey = |w: Seq<char>| guess_score(ws, w);

    let mut apairs: Vec<(u64, String)> = Vec::new();
    for i in 0..answers.len()
        invariant
            ws == words_view(answers@),
            wf_words(ws),
            answers@.len() <= CORPUS_LIMIT,
            tables_ok(t, ws),
            apairs@.len() == i,
            forall|k: int| 0 <= k < i ==> (#[trigger] apairs@[k]).1@ == ws[k],
            forall|k: int| 0 <= k < i ==> (#[trigger] apairs@[k]).0 == answer_score(
                ws,
                apairs@[k].1@,
            ),
    {
        proof {
            assert(ws[i as int] == answers@[i as int]@);
            assert(wf_word(ws[i as int]));
        }
        let sc = score_answer(&t, &answers[i], Ghost(ws));
        apairs.push((sc, answers[i].clone()));
    }
    proof {
        assert(pair_words(apairs@) =~= ws);
    }
    let asorted = sort_pairs(&apairs, Ghost(akey));

    let mut gpairs: Vec<(u64, String)> = Vec::new();
    for i in 0..guessables.len()
        invariant
            ws == words_view(answers@),
            gs == words_view(guessables@),
            wf_words(ws),
            wf_words(gs),
            answers@.len() <= CORPUS_LIMIT,
            tables_ok(t, ws),
            gpairs@.len() == i,
            forall|k: int| 0 <= k < i ==> (#[trigger] gpairs@[k]).1@ == gs[k],
            forall|k: int| 0 <= k < i ==> (#[trigger] gpairs@[k]).0 == guess_score(
                ws,
                gpairs@[k].1@,
            ),
    {
        proof {
            assert(gs[i as int] == guessables@[i as int]@);
            assert(wf_word(gs[i as int]));
        }
        let sc = score_guess(&t, &guessables[i], Ghost(ws));
        gpairs.push((sc, guessables[i].clone()));
    }
    proof {
        assert(pair_words(gpairs@) =~= gs);
    }
    let gsorted = sort_pairs(&gpairs, Ghost(gkey));

    let mut apool: Vec<String> = Vec::new();
    for i in 0..asorted.len()
        invariant
            apool@.len() == i,
            forall|k: int| 0 <= k < i ==> (#[trigger] apool@[k])@ == pair_words(asorted@)[k],
    {
        apool.push(asorted[i].1.clone());
    }
    let mut gpool: Vec<String> = Vec::new();
    for i in 0..gsorted.len()
        invariant
            gpool@.len() == i,
            forall|k: int| 0 <= k < i ==> (#[trigger] gpool@[k])@ == pair_words(gsorted@)[k],
    {
        gpool.push(gsorted[i].1.clone());
    }
    proof {
        assert(words_view(apool@) =~= rank_answers_spec(ws));
        assert(words_view(gpool@) =~= rank_guessables_spec(ws, gs));
        lemma_rank_by_membership(ws, akey);
        lemma_rank_by_membership(gs, gkey);
        assert forall|k: int| 0 <= k < words_view(apool@).len() implies wf_word(
            #[trigger] words_view(apool@)[k],
        ) by {
            let x = words_view(apool@)[k];
            assert(rank_by(ws, akey).contains(x));
            let m = choose|m: int| 0 <= m < ws.len() && ws[m] == x;
            assert(wf_word(ws[m]));
        }
        assert forall|k: int| 0 <= k < words_view(gpool@).len() implies wf_word(
            #[trigger] words_view(gpool@)[k],
        ) by {
            let x = words_view(gpool@)[k];
            assert(rank_by(gs, gkey).contains(x));
            let m = choose|m: int| 0 <= m < gs.len() && gs[m] == x;
            assert(wf_word(gs[m]));
        }
    }
    (apool, gpool)
}

} // verus!
