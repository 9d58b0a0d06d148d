//! The gameplay state machine.
//!
//! A `Gameplay` owns the hidden target, the guesses made so far, the
//! constraint learned from their feedback (confirmed positions, misplaced
//! letters, absent letters, and every letter used), and the two candidate
//! pools. Its mathematical model is a `GameView`; every mutation is pinned
//! to the transition function `spec_add_guess` on that model.

use vstd::prelude::*;
use crate::words::{
    chars_contain, contains_char, copy_plain, copy_words, is_alpha, is_upper, spec_upper,
    upper_word,
    uppercase_word, uses_any, wf_word, wf_words, word_char, word_contains, word_eq, word_eq_chars,
    word_uses_any, words_view,
};
use crate::score::{
    answer_score, guess_score, lemma_rank_by_membership, rank_answers_spec, rank_guessables_spec,
    rank_pools, CORPUS_LIMIT,
};

verus! {

/// The model of a gameplay state.
#[verifier::ext_equal]
pub ghost struct GameView {
    /// The hidden target word.
    pub target: Seq<char>,
    /// Every guess made so far, in order.
    pub guesses: Seq<Seq<char>>,
    /// How many guesses were made.
    pub guess_count: nat,
    /// Confirmed letters by position: `green[i]` is the letter known to
    /// stand at position `i`.
    pub green: Seq<Option<char>>,
    /// Misplaced letters by position: `yellow[i]` is a letter known to be
    /// in the target but not at position `i`, where it was last guessed.
    pub yellow: Seq<Option<char>>,
    /// Letters known to be absent from the target.
    pub gray: Seq<char>,
    /// Every letter that has appeared in any guess.
    pub used: Seq<char>,
    /// Words that could still be the target, best score first.
    pub answers: Seq<Seq<char>>,
    /// Words still worth guessing, best score first.
    pub guessables: Seq<Seq<char>>,
}

/// A letter list without repetitions.
pub open spec fn nodup(s: Seq<char>) -> bool {
    forall|i: int, j: int| 0 <= i < j < s.len() ==> s[i] != s[j]
}

/// The word `w` agrees with everything the constraint records: each
/// confirmed position matches, each misplaced letter occurs in `w` but not
/// at the position it was guessed at, and no absent letter occurs at all.
pub open spec fn consistent_word(
    w: Seq<char>,
    green: Seq<Option<char>>,
    yellow: Seq<Option<char>>,
    gray: Seq<char>,
) -> bool {
    &&& forall|i: int|
        0 <= i < 5 ==> (#[trigger] yellow[i] matches Some(c) ==> contains_char(w, c) && w[i] != c)
    &&& forall|c: char| #[trigger] gray.contains(c) ==> !contains_char(w, c)
    &&& forall|i: int| 0 <= i < 5 ==> (#[trigger] green[i] matches Some(c) ==> w[i] == c)
}

/// The confirmed positions after feedback on the first `n` letters of the
/// guess `w` against the target `t`.
pub open spec fn upd_green(
    green: Seq<Option<char>>,
    t: Seq<char>,
    w: Seq<char>,
    n: int,
) -> Seq<Option<char>>
    decreases n,
{
    if n <= 0 {
        green
    } else {
        let g = upd_green(green, t, w, n - 1);
        if t[n - 1] == w[n - 1] {
            g.update(n - 1, Some(w[n - 1]))
        } else {
            g
        }
    }
}

/// The misplaced letters after feedback on the first `n` letters of `w`:
/// a letter of the target guessed at the wrong position is recorded there.
pub open spec fn upd_yellow(
    yellow: Seq<Option<char>>,
    t: Seq<char>,
    w: Seq<char>,
    n: int,
) -> Seq<Option<char>>
    decreases n,
{
    if n <= 0 {
        yellow
    } else {
        let y = upd_yellow(yellow, t, w, n - 1);
        if contains_char(t, w[n - 1]) && t[n - 1] != w[n - 1] {
            y.update(n - 1, Some(w[n - 1]))
        } else {
            y
        }
    }
}

/// The absent letters after feedback on the first `n` letters of `w`:
/// letters missing from the target are recorded once.
pub open spec fn upd_gray(gray: Seq<char>, t: Seq<char>, w: Seq<char>, n: int) -> Seq<char>
    decreases n,
{
    if n <= 0 {
        gray
    } else {
        let g = upd_gray(gray, t, w, n - 1);
        if !contains_char(t, w[n - 1]) && !g.contains(w[n - 1]) {
            g.push(w[n - 1])
        } else {
            g
        }
    }
}

/// The used letters after the first `n` letters of `w`: each letter is
/// recorded once.
pub open spec fn upd_used(used: Seq<char>, w: Seq<char>, n: int) -> Seq<char>
    decreases n,
{
    if n <= 0 {
        used
    } else {
        let u = upd_used(used, w, n - 1);
        if !u.contains(w[n - 1]) {
            u.push(w[n - 1])
        } else {
            u
        }
    }
}

/// A pool with every copy of the word `w` removed, order kept.
pub open spec fn remove_word(s: Seq<Seq<char>>, w: Seq<char>) -> Seq<Seq<char>>
    decreases s.len(),
{
    if s.len() == 0 {
        s
    } else {
        let rest = remove_word(s.drop_last(), w);
        if s.last() != w {
            rest.push(s.last())
        } else {
            rest
        }
    }
}

/// The answer pool pruned against the constraint: only consistent words
/// stay, in order.
pub open spec fn prune_answers(
    s: Seq<Seq<char>>,
    green: Seq<Option<char>>,
    yellow: Seq<Option<char>>,
    gray: Seq<char>,
) -> Seq<Seq<char>>
    decreases s.len(),
{
    if s.len() == 0 {
        s
    } else {
        let rest = prune_answers(s.drop_last(), green, yellow, gray);
        if consistent_word(s.last(), green, yellow, gray) {
            rest.push(s.last())
        } else {
            rest
        }
    }
}

/// The guess pool pruned against the used letters: only words sharing no
/// letter with them stay, in order.
pub open spec fn prune_guessables(s: Seq<Seq<char>>, used: Seq<char>) -> Seq<Seq<char>>
    decreases s.len(),
{
    if s.len() == 0 {
        s
    } else {
        let rest = prune_guessables(s.drop_last(), used);
        if !uses_any(s.last(), used) {
            rest.push(s.last())
        } else {
            rest
        }
    }
}

/// The state is solved: at least one guess was made and the latest guess
/// is the target.
pub open spec fn spec_solved(v: GameView) -> bool {
    v.guesses.len() > 0 && v.guesses.last() == v.target
}

/// One step of the state machine: record the guess `w`, update the
/// constraint from its feedback against the target, drop `w` from both
/// pools, then prune the answer pool against the updated constraint and
/// the guessable pool against the updated used letters.
pub open spec fn spec_add_guess(v: GameView, w: Seq<char>) -> GameView {
    let green2 = upd_green(v.green, v.target, w, 5);
    let yellow2 = upd_yellow(v.yellow, v.target, w, 5);
    let gray2 = upd_gray(v.gray, v.target, w, 5);
    let used2 = upd_used(v.used, w, 5);
    GameView {
        target: v.target,
        guesses: v.guesses.push(w),
        guess_count: v.guess_count + 1,
        green: green2,
        yellow: yellow2,
        gray: gray2,
        used: used2,
        answers: prune_answers(remove_word(v.answers, w), green2, yellow2, gray2),
        guessables: prune_guessables(remove_word(v.guessables, w), used2),
    }
}

impl GameView {
    /// The state's invariant: shapes, well-formed words, a truthful
    /// constraint (everything it records holds of the target), a used set
    /// covering every classified letter, pools whose answers are all
    /// consistent with the constraint and whose guessables avoid every
    /// used letter.
    pub open spec fn wf(self) -> bool {
        &&& wf_word(self.target)
        &&& self.green.len() == 5
        &&& self.yellow.len() == 5
        &&& self.guess_count == self.guesses.len()
        &&& wf_words(self.guesses)
        &&& wf_words(self.answers)
        &&& wf_words(self.guessables)
        &&& nodup(self.gray)
        &&& nodup(self.used)
        &&& forall|i: int|
            0 <= i < 5 ==> (#[trigger] self.green[i] matches Some(c) ==> self.target[i] == c)
        &&& forall|i: int|
            0 <= i < 5 ==> (#[trigger] self.yellow[i] matches Some(c) ==> contains_char(
                self.target,
                c,
            ) && self.target[i] != c)
        &&& forall|c: char| #[trigger] self.gray.contains(c) ==> !contains_char(self.target, c)
        &&& forall|i: int|
            0 <= i < 5 ==> (#[trigger] self.green[i] matches Some(c) ==> self.used.contains(c))
        &&& forall|i: int|
            0 <= i < 5 ==> (#[trigger] self.yellow[i] matches Some(c) ==> self.used.contains(c))
        &&& forall|c: char| #[trigger] self.gray.contains(c) ==> self.used.contains(c)
        &&& forall|k: int|
            0 <= k < self.answers.len() ==> consistent_word(
                #[trigger] self.answers[k],
                self.green,
                self.yellow,
                self.gray,
            )
        &&& forall|k: int|
            0 <= k < self.guessables.len() ==> !uses_any(#[trigger] self.guessables[k], self.used)
    }
}

/// Closed form of the confirmed-position update: position `i` becomes
/// `Some(w[i])` where guess and target agree, everything else stays.
pub proof fn lemma_upd_green(green: Seq<Option<char>>, t: Seq<char>, w: Seq<char>, n: int)
    requires
        green.len() == 5,
        0 <= n <= 5,
    ensures
        upd_green(green, t, w, n).len() == 5,
        forall|i: int|
            0 <= i < 5 ==> #[trigger] upd_green(green, t, w, n)[i] == (if i < n && t[i] == w[i] {
                Some(w[i])
            } else {
                green[i]
            }),
    decreases n,
{
    if n > 0 {
        lemma_upd_green(green, t, w, n - 1);
        let g = upd_green(green, t, w, n - 1);
        let out = upd_green(green, t, w, n);
        if t[n - 1] == w[n - 1] {
            assert(out == g.update(n - 1, Some(w[n - 1])));
        } else {
            assert(out == g);
        }
        assert forall|i: int| 0 <= i < 5 implies out[i] == (if i < n && t[i] == w[i] {
            Some(w[i])
        } else {
            green[i]
        }) by {
            assert(g[i] == (if i < n - 1 && t[i] == w[i] {
                Some(w[i])
            } else {
                green[i]
            }));
        }
    }
}

/// Closed form of the misplaced-letter update: position `i` becomes
/// `Some(w[i])` where the letter is in the target but not at `i`.
pub proof fn lemma_upd_yellow(yellow: Seq<Option<char>>, t: Seq<char>, w: Seq<char>, n: int)
    requires
        yellow.len() == 5,
        0 <= n <= 5,
    ensures
        upd_yellow(yellow, t, w, n).len() == 5,
        forall|i: int|
            0 <= i < 5 ==> #[trigger] upd_yellow(yellow, t, w, n)[i] == (if i < n && contains_char(
                t,
                w[i],
            )
                && t[i] != w[i] {
                Some(w[i])
            } else {
                yellow[i]
            }),
    decreases n,
{
    if n > 0 {
        lemma_upd_yellow(yellow, t, w, n - 1);
        let y = upd_yellow(yellow, t, w, n - 1);
        let out = upd_yellow(yellow, t, w, n);
        if contains_char(t, w[n - 1]) && t[n - 1] != w[n - 1] {
            assert(out == y.update(n - 1, Some(w[n - 1])));
        } else {
            assert(out == y);
        }
        assert forall|i: int| 0 <= i < 5 implies out[i] == (if i < n && contains_char(t, w[i])
            && t[i] != w[i] {
            Some(w[i])
        } else {
            yellow[i]
        }) by {
            assert(y[i] == (if i < n - 1 && contains_char(t, w[i]) && t[i] != w[i] {
                Some(w[i])
            } else {
                yellow[i]
            }));
        }
    }
}

/// What the absent-letter update holds: the old letters and each letter of
/// the guess that is missing from the target, without repetitions.
pub proof fn lemma_upd_gray(gray: Seq<char>, t: Seq<char>, w: Seq<char>, n: int)
    requires
        nodup(gray),
        0 <= n,
    ensures
        nodup(upd_gray(gray, t, w, n)),
        forall|c: char|
            #[trigger] upd_gray(gray, t, w, n).contains(c) <==> (gray.contains(c) || exists|i: int|
                0 <= i < n && w[i] == c && !contains_char(t, c)),
    decreases n,
{
    if n > 0 {
        lemma_upd_gray(gray, t, w, n - 1);
        let g = upd_gray(gray, t, w, n - 1);
        let out = upd_gray(gray, t, w, n);
        if !contains_char(t, w[n - 1]) && !g.contains(w[n - 1]) {
            assert(out == g.push(w[n - 1]));
            assert forall|c: char| #[trigger] out.contains(c) implies (gray.contains(c)
                || exists|i: int| 0 <= i < n && w[i] == c && !contains_char(t, c)) by {
                let k = choose|k: int| 0 <= k < out.len() && out[k] == c;
                if k < g.len() {
                    assert(g.contains(c));
                } else {
                    assert(c == w[n - 1]);
                    assert(0 <= n - 1 < n && w[n - 1] == c && !contains_char(t, c));
                }
            }
            assert forall|c: char|
                gray.contains(c) || (exists|i: int|
                    0 <= i < n && w[i] == c && !contains_char(t, c)) implies #[trigger] out.contains(
                c,
            ) by {
                if gray.contains(c) || (exists|i: int|
                    0 <= i < n - 1 && w[i] == c && !contains_char(t, c)) {
                    assert(g.contains(c));
                    let k = choose|k: int| 0 <= k < g.len() && g[k] == c;
                    assert(out[k] == c);
                } else {
                    assert(c == w[n - 1]);
                    assert(out[g.len() as int] == c);
                }
            }
            assert forall|i: int, j: int| 0 <= i < j < out.len() implies out[i] != out[j] by {
                if j == out.len() - 1 {
                    assert(g.contains(out[i]));
                }
            }
        } else {
            assert(out == g);
            assert forall|c: char|
                gray.contains(c) || (exists|i: int|
                    0 <= i < n && w[i] == c && !contains_char(t, c)) implies #[trigger] out.contains(
                c,
            ) by {
                if !(gray.contains(c) || (exists|i: int|
                    0 <= i < n - 1 && w[i] == c && !contains_char(t, c))) {
                    assert(c == w[n - 1] && !contains_char(t, c));
                    assert(g.contains(c));
                }
            }
        }
    }
}

/// What the used-letter update holds: the old letters and every letter of
/// the guess, without repetitions.
pub proof fn lemma_upd_used(used: Seq<char>, w: Seq<char>, n: int)
    requires
        nodup(used),
        0 <= n,
    ensures
        nodup(upd_used(used, w, n)),
        forall|c: char|
            #[trigger] upd_used(used, w, n).contains(c) <==> (used.contains(c) || exists|i: int|
                0 <= i < n && w[i] == c),
    decreases n,
{
    if n > 0 {
        lemma_upd_used(used, w, n - 1);
        let u = upd_used(used, w, n - 1);
        let out = upd_used(used, w, n);
        if !u.contains(w[n - 1]) {
            assert(out == u.push(w[n - 1]));
            assert forall|c: char| #[trigger] out.contains(c) implies (used.contains(c)
                || exists|i: int| 0 <= i < n && w[i] == c) by {
                let k = choose|k: int| 0 <= k < out.len() && out[k] == c;
                if k < u.len() {
                    assert(u.contains(c));
                } else {
                    assert(0 <= n - 1 < n && w[n - 1] == c);
                }
            }
            assert forall|c: char|
                used.contains(c) || (exists|i: int| 0 <= i < n && w[i] == c) implies #[trigger] out
                .contains(c) by {
                if used.contains(c) || (exists|i: int| 0 <= i < n - 1 && w[i] == c) {
                    assert(u.contains(c));
                    let k = choose|k: int| 0 <= k < u.len() && u[k] == c;
                    assert(out[k] == c);
                } else {
                    assert(c == w[n - 1]);
                    assert(out[u.len() as int] == c);
                }
            }
            assert forall|i: int, j: int| 0 <= i < j < out.len() implies out[i] != out[j] by {
                if j == out.len() - 1 {
                    assert(u.contains(out[i]));
                }
            }
        } else {
            assert(out == u);
            assert forall|c: char|
                used.contains(c) || (exists|i: int| 0 <= i < n && w[i] == c) implies #[trigger] out
                .contains(c) by {
                if !(used.contains(c) || (exists|i: int| 0 <= i < n - 1 && w[i] == c)) {
                    assert(c == w[n - 1]);
                    assert(u.contains(c));
                }
            }
        }
    }
}

/// What removing a word keeps and drops: every kept word stood in the
/// pool and differs from `w`; every such word is kept; the pool never
/// grows, and shrinks strictly when it held `w`.
pub proof fn lemma_remove_word(s: Seq<Seq<char>>, w: Seq<char>)
    ensures
        remove_word(s, w).len() <= s.len(),
        forall|k: int|
            0 <= k < remove_word(s, w).len() ==> {
                let x = #[trigger] remove_word(s, w)[k];
                s.contains(x) && x != w
            },
        forall|x: Seq<char>|
            #[trigger] s.contains(x) && x != w ==> remove_word(s, w).contains(x),
        s.contains(w) ==> remove_word(s, w).len() < s.len(),
    decreases s.len(),
{
    let out = remove_word(s, w);
    if s.len() > 0 {
        lemma_remove_word(s.drop_last(), w);
        let rest = remove_word(s.drop_last(), w);
        assert forall|k: int| 0 <= k < out.len() implies {
            let x = #[trigger] out[k];
            s.contains(x) && x != w
        } by {
            if k < rest.len() {
                assert(out[k] == rest[k]);
                let j = choose|j: int| 0 <= j < s.drop_last().len() && s.drop_last()[j] == rest[k];
                assert(s[j] == out[k]);
            } else {
                assert(out[k] == s.last());
                assert(s[s.len() - 1] == out[k]);
            }
        }
        assert forall|x: Seq<char>| #[trigger] s.contains(x) && x != w implies out.contains(x) by {
            let i = choose|i: int| 0 <= i < s.len() && s[i] == x;
            if i < s.len() - 1 {
                assert(s.drop_last()[i] == x);
                assert(s.drop_last().contains(x));
                assert(rest.contains(x));
                let j = choose|j: int| 0 <= j < rest.len() && rest[j] == x;
                assert(out[j] == x);
            } else {
                assert(out[out.len() - 1] == x);
            }
        }
        if s.contains(w) {
            if s.last() == w {
                assert(out == rest);
            } else {
                let i = choose|i: int| 0 <= i < s.len() && s[i] == w;
                assert(s.drop_last()[i] == w);
                assert(s.drop_last().contains(w));
            }
        }
    }
}

/// What pruning the answer pool keeps and drops: every kept word stood in
/// the pool and is consistent with the constraint; every such word is
/// kept; the pool never grows.
pub proof fn lemma_prune_answers(
    s: Seq<Seq<char>>,
    green: Seq<Option<char>>,
    yellow: Seq<Option<char>>,
    gray: Seq<char>,
)
    ensures
        prune_answers(s, green, yellow, gray).len() <= s.len(),
        forall|k: int|
            0 <= k < prune_answers(s, green, yellow, gray).len() ==> {
                let x = #[trigger] prune_answers(s, green, yellow, gray)[k];
                s.contains(x) && consistent_word(x, green, yellow, gray)
            },
        forall|x: Seq<char>|
            #[trigger] s.contains(x) && consistent_word(x, green, yellow, gray) ==> prune_answers(
                s,
                green,
                yellow,
                gray,
            ).contains(x),
    decreases s.len(),
{
    let out = prune_answers(s, green, yellow, gray);
    if s.len() > 0 {
        lemma_prune_answers(s.drop_last(), green, yellow, gray);
        let rest = prune_answers(s.drop_last(), green, yellow, gray);
        assert forall|k: int| 0 <= k < out.len() implies {
            let x = #[trigger] out[k];
            s.contains(x) && consistent_word(x, green, yellow, gray)
        } by {
            if k < rest.len() {
                assert(out[k] == rest[k]);
                let j = choose|j: int| 0 <= j < s.drop_last().len() && s.drop_last()[j] == rest[k];
                assert(s[j] == out[k]);
            } else {
                assert(out[k] == s.last());
                assert(s[s.len() - 1] == out[k]);
            }
        }
        assert forall|x: Seq<char>|
            #[trigger] s.contains(x) && consistent_word(x, green, yellow, gray) implies out
            .contains(x) by {
            let i = choose|i: int| 0 <= i < s.len() && s[i] == x;
            if i < s.len() - 1 {
                assert(s.drop_last()[i] == x);
                assert(s.drop_last().contains(x));
                assert(rest.contains(x));
                let j = choose|j: int| 0 <= j < rest.len() && rest[j] == x;
                assert(out[j] == x);
            } else {
                assert(out[out.len() - 1] == x);
            }
        }
    }
}

/// What pruning the guess pool keeps and drops, in the same shape as for
/// the answer pool.
pub proof fn lemma_prune_guessables(s: Seq<Seq<char>>, used: Seq<char>)
    ensures
        prune_guessables(s, used).len() <= s.len(),
        forall|k: int|
            0 <= k < prune_guessables(s, used).len() ==> {
                let x = #[trigger] prune_guessables(s, used)[k];
                s.contains(x) && !uses_any(x, used)
            },
        forall|x: Seq<char>|
            #[trigger] s.contains(x) && !uses_any(x, used) ==> prune_guessables(s, used).contains(
                x,
            ),
    decreases s.len(),
{
    let out = prune_guessables(s, used);
    if s.len() > 0 {
        lemma_prune_guessables(s.drop_last(), used);
        let rest = prune_guessables(s.drop_last(), used);
        assert forall|k: int| 0 <= k < out.len() implies {
            let x = #[trigger] out[k];
            s.contains(x) && !uses_any(x, used)
        } by {
            if k < rest.len() {
                assert(out[k] == rest[k]);
                let j = choose|j: int| 0 <= j < s.drop_last().len() && s.drop_last()[j] == rest[k];
                assert(s[j] == out[k]);
            } else {
                assert(out[k] == s.last());
                assert(s[s.len() - 1] == out[k]);
            }
        }
        assert forall|x: Seq<char>|
            #[trigger] s.contains(x) && !uses_any(x, used) implies out.contains(x) by {
            let i = choose|i: int| 0 <= i < s.len() && s[i] == x;
            if i < s.len() - 1 {
                assert(s.drop_last()[i] == x);
                assert(s.drop_last().contains(x));
                assert(rest.contains(x));
                let j = choose|j: int| 0 <= j < rest.len() && rest[j] == x;
                assert(out[j] == x);
            } else {
                assert(out[out.len() - 1] == x);
            }
        }
    }
}

/// The constraint never contradicts the target it was learned from: the
/// target itself is consistent with it.
pub proof fn lemma_target_consistent(v: GameView)
    requires
        v.wf(),
    ensures
        consistent_word(v.target, v.green, v.yellow, v.gray),
{
}

/// One guess preserves the invariant, and neither pool grows.
pub proof fn lemma_add_guess_wf(v: GameView, w: Seq<char>)
    requires
        v.wf(),
        wf_word(w),
    ensures
        spec_add_guess(v, w).wf(),
        spec_add_guess(v, w).answers.len() <= v.answers.len(),
        spec_add_guess(v, w).guessables.len() <= v.guessables.len(),
{
    let v2 = spec_add_guess(v, w);
    let t = v.target;
    lemma_upd_green(v.green, t, w, 5);
    lemma_upd_yellow(v.yellow, t, w, 5);
    lemma_upd_gray(v.gray, t, w, 5);
    lemma_upd_used(v.used, w, 5);
    lemma_remove_word(v.answers, w);
    lemma_remove_word(v.guessables, w);
    lemma_prune_answers(remove_word(v.answers, w), v2.green, v2.yellow, v2.gray);
    lemma_prune_guessables(remove_word(v.guessables, w), v2.used);
    assert(wf_words(v2.guesses)) by {
        assert(forall|k: int|
            0 <= k < v.guesses.len() ==> #[trigger] v.guesses.push(w)[k] == v.guesses[k]);
        assert(v.guesses.push(w)[v.guesses.len() as int] == w);
    }
    assert(wf_words(v2.answers)) by {
        assert forall|k: int| 0 <= k < v2.answers.len() implies wf_word(#[trigger] v2.answers[k])
            by {
            assert(remove_word(v.answers, w).contains(v2.answers[k]));
            let i = choose|i: int|
                0 <= i < remove_word(v.answers, w).len() && remove_word(v.answers, w)[i]
                    == v2.answers[k];
            assert(v.answers.contains(v2.answers[k]));
            let j = choose|j: int| 0 <= j < v.answers.len() && v.answers[j] == v2.answers[k];
            assert(wf_word(v.answers[j]));
        }
    }
    assert(wf_words(v2.guessables)) by {
        assert forall|k: int| 0 <= k < v2.guessables.len() implies wf_word(
            #[trigger] v2.guessables[k],
        ) by {
            assert(remove_word(v.guessables, w).contains(v2.guessables[k]));
            let i = choose|i: int|
                0 <= i < remove_word(v.guessables, w).len() && remove_word(v.guessables, w)[i]
                    == v2.guessables[k];
            assert(v.guessables.contains(v2.guessables[k]));
            let j = choose|j: int|
                0 <= j < v.guessables.len() && v.guessables[j] == v2.guessables[k];
            assert(wf_word(v.guessables[j]));
        }
    }
    assert forall|i: int| 0 <= i < 5 implies (#[trigger] v2.green[i] matches Some(c)
        ==> t[i] == c && v2.used.contains(c)) by {
        if i < 5 && t[i] == w[i] {
            assert(v2.green[i] == Some(w[i]));
            assert(v2.used.contains(w[i]));
        } else {
            assert(v2.green[i] == v.green[i]);
        }
    }
    assert forall|i: int| 0 <= i < 5 implies (#[trigger] v2.yellow[i] matches Some(c)
        ==> contains_char(t, c) && t[i] != c && v2.used.contains(c)) by {
        if i < 5 && contains_char(t, w[i]) && t[i] != w[i] {
            assert(v2.yellow[i] == Some(w[i]));
            assert(v2.used.contains(w[i]));
        } else {
            assert(v2.yellow[i] == v.yellow[i]);
        }
    }
    assert forall|c: char| #[trigger] v2.gray.contains(c) implies !contains_char(t, c)
        && v2.used.contains(c) by {
        if v.gray.contains(c) {
            assert(v.used.contains(c));
        }
    }
}

/// Guessing the target solves the state at once; guessing anything else
/// keeps the target in the answer pool.
pub proof fn lemma_add_guess_target(v: GameView, w: Seq<char>)
    requires
        v.wf(),
        wf_word(w),
    ensures
        w == v.target ==> spec_solved(spec_add_guess(v, w)),
        w != v.target && v.answers.contains(v.target) ==> spec_add_guess(v, w).answers.contains(
            v.target,
        ),
{
    let v2 = spec_add_guess(v, w);
    assert(v2.guesses.last() == w);
    if w != v.target && v.answers.contains(v.target) {
        lemma_add_guess_wf(v, w);
        lemma_target_consistent(v2);
        lemma_remove_word(v.answers, w);
        lemma_prune_answers(remove_word(v.answers, w), v2.green, v2.yellow, v2.gray);
        assert(consistent_word(v.target, v2.green, v2.yellow, v2.gray));
        assert(remove_word(v.answers, w).contains(v.target));
    }
}

/// A guess taken from a pool leaves that pool strictly smaller.
pub proof fn lemma_add_guess_shrinks(v: GameView, w: Seq<char>)
    ensures
        v.answers.contains(w) ==> spec_add_guess(v, w).answers.len() < v.answers.len(),
        v.guessables.contains(w) ==> spec_add_guess(v, w).guessables.len() < v.guessables.len(),
{
    let v2 = spec_add_guess(v, w);
    lemma_remove_word(v.answers, w);
    lemma_remove_word(v.guessables, w);
    lemma_prune_answers(remove_word(v.answers, w), v2.green, v2.yellow, v2.gray);
    lemma_prune_guessables(remove_word(v.guessables, w), v2.used);
}

/// The starting state: a case-normalized target, no guesses, an empty
/// constraint, and the two freshly ranked pools.
pub open spec fn spec_new_view(t: Seq<char>, aws: Seq<Seq<char>>, gws: Seq<Seq<char>>) -> GameView {
    GameView {
        target: t,
        guesses: Seq::empty(),
        guess_count: 0,
        green: Seq::new(5, |i: int| None),
        yellow: Seq::new(5, |i: int| None),
        gray: Seq::empty(),
        used: Seq::empty(),
        answers: rank_answers_spec(aws),
        guessables: rank_guessables_spec(aws, gws),
    }
}

/// The starting state satisfies the invariant.
pub proof fn lemma_new_wf(t: Seq<char>, aws: Seq<Seq<char>>, gws: Seq<Seq<char>>)
    requires
        wf_word(t),
        wf_words(aws),
        wf_words(gws),
    ensures
        spec_new_view(t, aws, gws).wf(),
{
    let v = spec_new_view(t, aws, gws);
    lemma_rank_by_membership(aws, |w: Seq<char>| answer_score(aws, w));
    lemma_rank_by_membership(gws, |w: Seq<char>| guess_score(aws, w));
    assert(wf_words(v.answers)) by {
        assert forall|k: int| 0 <= k < v.answers.len() implies wf_word(#[trigger] v.answers[k])
            by {
            assert(v.answers.contains(v.answers[k]));
            assert(aws.contains(v.answers[k]));
            let j = choose|j: int| 0 <= j < aws.len() && aws[j] == v.answers[k];
            assert(wf_word(aws[j]));
        }
    }
    assert(wf_words(v.guessables)) by {
        assert forall|k: int| 0 <= k < v.guessables.len() implies wf_word(
            #[trigger] v.guessables[k],
        ) by {
            assert(v.guessables.contains(v.guessables[k]));
            assert(gws.contains(v.guessables[k]));
            let j = choose|j: int| 0 <= j < gws.len() && gws[j] == v.guessables[k];
            assert(wf_word(gws[j]));
        }
    }
}

/// One playthrough of the puzzle: the hidden target, the guesses made, the
/// constraint learned from their feedback, and the two candidate pools.
pub struct Gameplay {
    /// The hidden target, case-normalized at construction.
    pub target: Vec<char>,
    /// Every guess made so far, in order.
    pub guesses: Vec<String>,
    /// How many guesses were made.
    pub guess_count: usize,
    /// Confirmed letter for each of the five positions.
    pub green: Vec<Option<char>>,
    /// Misplaced letter for each of the five positions, keyed by where it
    /// was guessed.
    pub yellow: Vec<Option<char>>,
    /// Letters known to be absent from the target.
    pub gray: Vec<char>,
    /// Every letter used in any guess.
    pub used: Vec<char>,
    /// Candidate answers, best score first.
    pub answers: Vec<String>,
    /// Candidate guesses, best score first.
    pub guessables: Vec<String>,
}

impl View for Gameplay {
    type V = GameView;

    open spec fn view(&self) -> GameView {
        GameView {
            target: self.target@,
            guesses: words_view(self.guesses@),
            guess_count: self.guess_count as nat,
            green: self.green@,
            yellow: self.yellow@,
            gray: self.gray@,
            used: self.used@,
            answers: words_view(self.answers@),
            guessables: words_view(self.guessables@),
        }
    }
}

impl Gameplay {
    /// The state's invariant, stated on its model.
    pub open spec fn wf(&self) -> bool {
        self@.wf()
    }

    /// Builds the starting state for one target: counts letter frequencies
    /// over the answer corpus, scores and ranks both pools, normalizes the
    /// target's case, and starts with an empty constraint.
    pub fn new(target: String, answers: &Vec<String>, guessables: &Vec<String>) -> (g: Gameplay)
        requires
            target@.len() == 5,
            forall|i: int| 0 <= i < 5 ==> is_alpha(#[trigger] target@[i]),
            wf_words(words_view(answers@)),
            wf_words(words_view(guessables@)),
            answers@.len() <= CORPUS_LIMIT,
        ensures
            g@ == spec_new_view(
                upper_word(target@),
                words_view(answers@),
                words_view(guessables@),
            ),
            g.wf(),
    {
        let t = uppercase_word(&target);
        proof {
            assert forall|i: int| 0 <= i < 5 implies is_upper(#[trigger] t@[i]) by {
                assert(t@[i] == spec_upper(target@[i]));
                assert(is_alpha(target@[i]));
            }
        }
        let pools = rank_pools(answers, guessables);
        let (apool, gpool) = pools;
        let mut green: Vec<Option<char>> = Vec::new();
        green.push(None);
        green.push(None);
        green.push(None);
        green.push(None);
        green.push(None);
        let mut yellow: Vec<Option<char>> = Vec::new();
        yellow.push(None);
        yellow.push(None);
        yellow.push(None);
        yellow.push(None);
        yellow.push(None);
        let g = Gameplay {
            target: t,
            guesses: Vec::new(),
            guess_count: 0,
            green,
            yellow,
            gray: Vec::new(),
            used: Vec::new(),
            answers: apool,
            guessables: gpool,
        };
        proof {
            let v = spec_new_view(upper_word(target@), words_view(answers@), words_view(
                guessables@,
            ));
            assert(g@.green =~= v.green);
            assert(g@.yellow =~= v.yellow);
            assert(g@.guesses =~= v.guesses);
            assert(g@.gray =~= v.gray);
            assert(g@.used =~= v.used);
            assert(g@ =~= v);
            lemma_new_wf(upper_word(target@), words_view(answers@), words_view(guessables@));
        }
        g
    }

    /// Classifies each letter of the latest guess against the target and
    /// records the result in the constraint: exact matches as confirmed
    /// positions, misplaced letters by the position they were tried at,
    /// absent letters once each, and every letter as used.
    fn process_last_guess(&mut self)
        requires
            old(self)@.guesses.len() > 0,
            old(self).target@.len() == 5,
            old(self).green@.len() == 5,
            old(self).yellow@.len() == 5,
            old(self)@.guesses.last().len() == 5,
        ensures
            final(self).target == old(self).target,
            final(self).guesses == old(self).guesses,
            final(self).guess_count == old(self).guess_count,
            final(self).answers == old(self).answers,
            final(self).guessables == old(self).guessables,
            final(self).green@ == upd_green(
                old(self).green@,
                old(self).target@,
                old(self)@.guesses.last(),
                5,
            ),
            final(self).yellow@ == upd_yellow(
                old(self).yellow@,
                old(self).target@,
                old(self)@.guesses.last(),
                5,
            ),
            final(self).gray@ == upd_gray(
                old(self).gray@,
                old(self).target@,
                old(self)@.guesses.last(),
                5,
            ),
            final(self).used@ == upd_used(old(self).used@, old(self)@.guesses.last(), 5),
    {
        let n = self.guesses.len();
        let w = self.guesses[n - 1].clone();
        proof {
            assert(w@ == old(self)@.guesses.last());
        }
        let ghost t = self.target@;
        let ghost g0 = self.green@;
        let ghost y0 = self.yellow@;
        let ghost gr0 = self.gray@;
        let ghost u0 = self.used@;
        for i in 0..5usize
            invariant
                w@ == old(self)@.guesses.last(),
                w@.len() == 5,
                t == old(self).target@,
                t.len() == 5,
                g0 == old(self).green@,
                y0 == old(self).yellow@,
                gr0 == old(self).gray@,
                u0 == old(self).used@,
                self.target == old(self).target,
                self.guesses == old(self).guesses,
                self.guess_count == old(self).guess_count,
                self.answers == old(self).answers,
                self.guessables == old(self).guessables,
                self.green@ == upd_green(g0, t, w@, i as int),
                self.yellow@ == upd_yellow(y0, t, w@, i as int),
                self.gray@ == upd_gray(gr0, t, w@, i as int),
                self.used@ == upd_used(u0, w@, i as int),
                self.green@.len() == 5,
                self.yellow@.len() == 5,
        {
            let c = word_char(&w, i);
            if !chars_contain(&self.used, c) {
                self.used.push(c);
            }
            if chars_contain(&self.target, c) {
                if self.target[i] == c {
                    self.green[i] = Some(c);
                } else {
                    self.yellow[i] = Some(c);
                }
            } else {
                if !chars_contain(&self.gray, c) {
                    self.gray.push(c);
                }
            }
            proof {
                assert(contains_char(t, c) == t.contains(c));
                assert(self.green@ == upd_green(g0, t, w@, i + 1));
                assert(self.yellow@ == upd_yellow(y0, t, w@, i + 1));
                assert(self.gray@ == upd_gray(gr0, t, w@, i + 1));
                assert(self.used@ == upd_used(u0, w@, i + 1));
            }
        }
    }

    /// Drops the just-played word from both pools.
    fn remove_answer(&mut self, answer: &String)
        ensures
            final(self).target == old(self).target,
            final(self).guesses == old(self).guesses,
            final(self).guess_count == old(self).guess_count,
            final(self).green == old(self).green,
            final(self).yellow == old(self).yellow,
            final(self).gray == old(self).gray,
            final(self).used == old(self).used,
            words_view(final(self).answers@) == remove_word(
                words_view(old(self).answers@),
                answer@,
            ),
            words_view(final(self).guessables@) == remove_word(
                words_view(old(self).guessables@),
                answer@,
            ),
    {
        let ghost gs = words_view(self.guessables@);
        let mut kept: Vec<String> = Vec::new();
        proof {
            assert(gs.take(0) =~= Seq::<Seq<char>>::empty());
            assert(words_view(kept@) =~= Seq::<Seq<char>>::empty());
        }
        for i in 0..self.guessables.len()
            invariant
                gs == words_view(self.guessables@),
                words_view(kept@) == remove_word(gs.take(i as int), answer@),
        {
            proof {
                assert(gs[i as int] == self.guessables@[i as int]@);
            }
            if !word_eq(&self.guessables[i], answer) {
                kept.push(self.guessables[i].clone());
            }
            proof {
                assert(gs.take(i + 1).drop_last() =~= gs.take(i as int));
                assert(gs.take(i + 1).last() == gs[i as int]);
                assert(words_view(kept@) =~= remove_word(gs.take(i + 1), answer@));
            }
        }
        proof {
            assert(gs.take(self.guessables@.len() as int) =~= gs);
        }
        self.guessables = kept;

        let ghost aws = words_view(self.answers@);
        let mut akept: Vec<String> = Vec::new();
        proof {
            assert(aws.take(0) =~= Seq::<Seq<char>>::empty());
            assert(words_view(akept@) =~= Seq::<Seq<char>>::empty());
        }
        for i in 0..self.answers.len()
            invariant
                aws == words_view(self.answers@),
                words_view(akept@) == remove_word(aws.take(i as int), answer@),
        {
            proof {
                assert(aws[i as int] == self.answers@[i as int]@);
            }
            if !word_eq(&self.answers[i], answer) {
                akept.push(self.answers[i].clone());
            }
            proof {
                assert(aws.take(i + 1).drop_last() =~= aws.take(i as int));
                assert(aws.take(i + 1).last() == aws[i as int]);
                assert(words_view(akept@) =~= remove_word(aws.take(i + 1), answer@));
            }
        }
        proof {
            assert(aws.take(self.answers@.len() as int) =~= aws);
        }
        self.answers = akept;
    }

    /// Prunes both pools: the answer pool against the constraint, the
    /// guess pool against the used letters. The constraint check keeps the
    /// cheap confirmed-position test last.
    fn filter_from_gameplay(&mut self)
        requires
            old(self).green@.len() == 5,
            old(self).yellow@.len() == 5,
            forall|k: int|
                0 <= k < old(self).answers@.len() ==> (#[trigger] old(self).answers@[k])@.len()
                    == 5,
        ensures
            final(self).target == old(self).target,
            final(self).guesses == old(self).guesses,
            final(self).guess_count == old(self).guess_count,
            final(self).green == old(self).green,
            final(self).yellow == old(self).yellow,
            final(self).gray == old(self).gray,
            final(self).used == old(self).used,
            words_view(final(self).answers@) == prune_answers(
                words_view(old(self).answers@),
                old(self).green@,
                old(self).yellow@,
                old(self).gray@,
            ),
            words_view(final(self).guessables@) == prune_guessables(
                words_view(old(self).guessables@),
                old(self).used@,
            ),
    {
        let ghost aws = words_view(self.answers@);
        let mut akept: Vec<String> = Vec::new();
        proof {
            assert(aws.take(0) =~= Seq::<Seq<char>>::empty());
            assert(words_view(akept@) =~= Seq::<Seq<char>>::empty());
        }
        for i in 0..self.answers.len()
            invariant
                aws == words_view(self.answers@),
                self.green@ == old(self).green@,
                self.yellow@ == old(self).yellow@,
                self.gray@ == old(self).gray@,
                self.green@.len() == 5,
                self.yellow@.len() == 5,
                forall|k: int|
                    0 <= k < self.answers@.len() ==> (#[trigger] self.answers@[k])@.len() == 5,
                words_view(akept@) == prune_answers(
                    aws.take(i as int),
                    self.green@,
                    self.yellow@,
                    self.gray@,
                ),
        {
            proof {
                assert(aws[i as int] == self.answers@[i as int]@);
            }
            if is_consistent(&self.answers[i], &self.green, &self.yellow, &self.gray) {
                akept.push(self.answers[i].clone());
            }
            proof {
                assert(aws.take(i + 1).drop_last() =~= aws.take(i as int));
                assert(aws.take(i + 1).last() == aws[i as int]);
                assert(words_view(akept@) =~= prune_answers(
                    aws.take(i + 1),
                    self.green@,
                    self.yellow@,
                    self.gray@,
                ));
            }
        }
        proof {
            assert(aws.take(self.answers@.len() as int) =~= aws);
        }
        self.answers = akept;

        let ghost gws = words_view(self.guessables@);
        let mut gkept: Vec<String> = Vec::new();
        proof {
            assert(gws.take(0) =~= Seq::<Seq<char>>::empty());
            assert(words_view(gkept@) =~= Seq::<Seq<char>>::empty());
        }
        for i in 0..self.guessables.len()
            invariant
                gws == words_view(self.guessables@),
                self.used@ == old(self).used@,
                words_view(gkept@) == prune_guessables(gws.take(i as int), self.used@),
        {
            proof {
                assert(gws[i as int] == self.guessables@[i as int]@);
            }
            if !word_uses_any(&self.guessables[i], &self.used) {
                gkept.push(self.guessables[i].clone());
            }
            proof {
                assert(gws.take(i + 1).drop_last() =~= gws.take(i as int));
                assert(gws.take(i + 1).last() == gws[i as int]);
                assert(words_view(gkept@) =~= prune_guessables(gws.take(i + 1), self.used@));
            }
        }
        proof {
            assert(gws.take(self.guessables@.len() as int) =~= gws);
        }
        self.guessables = gkept;
    }

    /// Records one guess: appends it, learns from its feedback, drops it
    /// from both pools and prunes them. The new state is exactly one
    /// transition of the state machine, the invariant is preserved, and
    /// neither pool ever grows; a guess taken from a pool leaves that
    /// pool strictly smaller.
    pub fn add_guess(&mut self, guess: &String)
        requires
            old(self).wf(),
            wf_word(guess@),
        ensures
            final(self)@ == spec_add_guess(old(self)@, guess@),
            final(self).wf(),
            final(self)@.answers.len() <= old(self)@.answers.len(),
            final(self)@.guessables.len() <= old(self)@.guessables.len(),
            old(self)@.answers.contains(guess@) ==> final(self)@.answers.len() < old(
                self,
            )@.answers.len(),
            old(self)@.guessables.contains(guess@) ==> final(self)@.guessables.len() < old(
                self,
            )@.guessables.len(),
    {
        self.guesses.push(guess.clone());
        proof {
            assert(words_view(self.guesses@) =~= words_view(old(self).guesses@).push(guess@));
        }
        self.guess_count = self.guesses.len();
        self.process_last_guess();
        self.remove_answer(guess);
        proof {
            lemma_upd_green(old(self)@.green, old(self)@.target, guess@, 5);
            lemma_upd_yellow(old(self)@.yellow, old(self)@.target, guess@, 5);
            lemma_remove_word(old(self)@.answers, guess@);
            assert forall|k: int| 0 <= k < self.answers@.len() implies (
            #[trigger] self.answers@[k])@.len() == 5 by {
                let x = words_view(self.answers@)[k];
                assert(x == self.answers@[k]@);
                assert(remove_word(old(self)@.answers, guess@).contains(x));
                assert(old(self)@.answers.contains(x));
                let j = choose|j: int|
                    0 <= j < old(self)@.answers.len() && old(self)@.answers[j] == x;
                assert(wf_word(old(self)@.answers[j]));
            }
        }
        self.filter_from_gameplay();
        proof {
            lemma_add_guess_wf(old(self)@, guess@);
            lemma_add_guess_shrinks(old(self)@, guess@);
            assert(final(self)@ =~= spec_add_guess(old(self)@, guess@));
        }
    }

    /// Whether the game is won: at least one guess was made and the
    /// latest guess is the target.
    pub fn is_solved(&self) -> (r: bool)
        ensures
            r == spec_solved(self@),
    {
        if self.guesses.len() == 0 {
            false
        } else {
            let n = self.guesses.len();
            word_eq_chars(&self.guesses[n - 1], &self.target)
        }
    }

    /// The greedy selector's choice: the highest-scored remaining answer,
    /// or nothing when the answer pool is exhausted — the caller must
    /// treat that as an unsolvable state, never as a wrong answer.
    pub fn next_guess(&self) -> (r: Option<String>)
        ensures
            self@.answers.len() > 0 ==> (r matches Some(w) && w@ == self@.answers[0]),
            self@.answers.len() == 0 ==> r is None,
    {
        if self.answers.len() == 0 {
            None
        } else {
            Some(self.answers[0].clone())
        }
    }

    /// How many guesses were made so far.
    pub fn guess_count(&self) -> (r: usize)
        ensures
            r == self@.guess_count,
    {
        self.guess_count
    }

    /// A fully independent copy of the state with one more guess applied;
    /// the receiver is borrowed immutably and stays untouched.
    pub fn clone_for_next_guess(&self, answer: &String) -> (g: Gameplay)
        requires
            self.wf(),
            wf_word(answer@),
        ensures
            g@ == spec_add_guess(self@, answer@),
            g.wf(),
    {
        let mut branch = Gameplay {
            target: copy_plain(&self.target),
            guesses: copy_words(&self.guesses),
            guess_count: self.guess_count,
            green: copy_plain(&self.green),
            yellow: copy_plain(&self.yellow),
            gray: copy_plain(&self.gray),
            used: copy_plain(&self.used),
            answers: copy_words(&self.answers),
            guessables: copy_words(&self.guessables),
        };
        proof {
            assert(branch@ =~= self@);
        }
        branch.add_guess(answer);
        branch
    }

    /// Plays one game straight through with the greedy selector: guesses
    /// the best remaining answer until the game is solved, and reports the
    /// guess count; reports nothing when the answer pool runs out first.
    pub fn play_to_end(&mut self) -> (r: Option<usize>)
        requires
            old(self).wf(),
        ensures
            final(self).wf(),
            r matches Some(n) ==> spec_solved(final(self)@) && n == final(self)@.guess_count,
            r is None ==> !spec_solved(final(self)@) && final(self)@.answers.len() == 0,
    {
        loop
            invariant
                self.wf(),
            decreases self@.answers.len(),
        {
            if self.is_solved() {
                return Some(self.guess_count());
            }
            let choice = self.next_guess();
            match choice {
                None => {
                    return None;
                },
                Some(w) => {
                    proof {
                        assert(self@.answers.contains(self@.answers[0]));
                        assert(wf_word(w@));
                    }
                    self.add_guess(&w);
                },
            }
        }
    }
}

/// Checks a candidate answer against the constraint, misplaced letters
/// first, then absent letters, confirmed positions last.
fn is_consistent(w: &String, green: &Vec<Option<char>>, yellow: &Vec<Option<char>>, gray: &Vec<
    char,
>) -> (r: bool)
    requires
        w@.len() == 5,
        green@.len() == 5,
        yellow@.len() == 5,
    ensures
        r == consistent_word(w@, green@, yellow@, gray@),
{
    for i in 0..5usize
        invariant
            w@.len() == 5,
            yellow@.len() == 5,
            forall|j: int|
                0 <= j < i ==> (#[trigger] yellow@[j] matches Some(c) ==> contains_char(w@, c)
                    && w@[j] != c),
    {
        match yellow[i] {
            Some(c) => {
                if !word_contains(w, c) {
                    return false;
                }
                if word_char(w, i) == c {
                    return false;
                }
            },
            None => {},
        }
    }
    for j in 0..gray.len()
        invariant
            w@.len() == 5,
            yellow@.len() == 5,
            forall|i: int|
                0 <= i < 5 ==> (#[trigger] yellow@[i] matches Some(c) ==> contains_char(w@, c)
                    && w@[i] != c),
            forall|k: int| 0 <= k < j ==> !contains_char(w@, #[trigger] gray@[k]),
    {
        if word_contains(w, gray[j]) {
            proof {
                assert(gray@.contains(gray@[j as int]));
            }
            return false;
        }
    }
    for i in 0..5usize
        invariant
            w@.len() == 5,
            green@.len() == 5,
            yellow@.len() == 5,
            forall|j: int|
                0 <= j < 5 ==> (#[trigger] yellow@[j] matches Some(c) ==> contains_char(w@, c)
                    && w@[j] != c),
            forall|k: int| 0 <= k < gray@.len() ==> !contains_char(w@, #[trigger] gray@[k]),
            forall|j: int| 0 <= j < i ==> (#[trigger] green@[j] matches Some(c) ==> w@[j] == c),
    {
        match green[i] {
            Some(c) => {
                if word_char(w, i) != c {
                    return false;
                }
            },
            None => {},
        }
    }
    proof {
        assert forall|c: char| #[trigger] gray@.contains(c) implies !contains_char(w@, c) by {
            let k = choose|k: int| 0 <= k < gray@.len() && gray@[k] == c;
            assert(!contains_char(w@, gray@[k]));
        }
    }
    true
}

} // verus!
