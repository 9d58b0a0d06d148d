//! The library's general laws, stated once over the model and proved.
//!
//! Each law speaks through the same spec functions that the executable
//! methods' contracts use, so what is proved here carries directly to
//! every call of those methods.

use vstd::prelude::*;
use crate::play::{
    consistent_word, lemma_add_guess_wf, lemma_prune_answers, lemma_prune_guessables,
    lemma_remove_word, remove_word, spec_add_guess, spec_new_view, spec_solved, GameView,
};
use crate::score::{answer_score, guess_score, lemma_rank_by_sorted};
use crate::words::wf_word;

verus! {

/// Every word still in the answer pool agrees with everything the
/// constraint records: confirmed positions match, misplaced letters occur
/// elsewhere, absent letters do not occur. This holds of every well-formed
/// state, and `add_guess` leaves every state well-formed, so it holds
/// after every guess.
pub proof fn lemma_answer_pool_consistent(v: GameView)
    requires
        v.wf(),
    ensures
        forall|k: int|
            0 <= k < v.answers.len() ==> consistent_word(
                #[trigger] v.answers[k],
                v.green,
                v.yellow,
                v.gray,
            ),
{
}

/// Pool sizes are non-increasing across successive guesses: one
/// transition never grows either pool.
pub proof fn lemma_pools_never_grow(v: GameView, w: Seq<char>)
    requires
        v.wf(),
        wf_word(w),
    ensures
        spec_add_guess(v, w).answers.len() <= v.answers.len(),
        spec_add_guess(v, w).guessables.len() <= v.guessables.len(),
{
    lemma_add_guess_wf(v, w);
}

/// A guess only ever removes words: every word in a pool after the guess
/// stood in that pool before it. With the consistency invariant this gives
/// the full history: a word surviving to any point passed every pruning
/// made so far.
pub proof fn lemma_pools_only_lose_words(v: GameView, w: Seq<char>)
    ensures
        forall|k: int|
            0 <= k < spec_add_guess(v, w).answers.len() ==> v.answers.contains(
                #[trigger] spec_add_guess(v, w).answers[k],
            ),
        forall|k: int|
            0 <= k < spec_add_guess(v, w).guessables.len() ==> v.guessables.contains(
                #[trigger] spec_add_guess(v, w).guessables[k],
            ),
{
    let v2 = spec_add_guess(v, w);
    lemma_remove_word(v.answers, w);
    lemma_remove_word(v.guessables, w);
    lemma_prune_answers(remove_word(v.answers, w), v2.green, v2.yellow, v2.gray);
    lemma_prune_guessables(remove_word(v.guessables, w), v2.used);
    assert forall|k: int| 0 <= k < v2.answers.len() implies v.answers.contains(
        #[trigger] v2.answers[k],
    ) by {
        assert(remove_word(v.answers, w).contains(v2.answers[k]));
    }
    assert forall|k: int| 0 <= k < v2.guessables.len() implies v.guessables.contains(
        #[trigger] v2.guessables[k],
    ) by {
        assert(remove_word(v.guessables, w).contains(v2.guessables[k]));
    }
}

/// Guessing the target always solves the game at once.
pub proof fn lemma_guessing_target_solves(v: GameView)
    ensures
        spec_solved(spec_add_guess(v, v.target)),
{
}

/// Scoring and ranking are deterministic: any two starting states built
/// over the same answer and guess corpora carry the same ordered pools,
/// whatever their targets.
pub proof fn lemma_ranking_deterministic(
    v1: GameView,
    v2: GameView,
    t1: Seq<char>,
    t2: Seq<char>,
    aws: Seq<Seq<char>>,
    gws: Seq<Seq<char>>,
)
    requires
        v1 == spec_new_view(t1, aws, gws),
        v2 == spec_new_view(t2, aws, gws),
    ensures
        v1.answers == v2.answers,
        v1.guessables == v2.guessables,
{
}

/// The starting pools are sorted by descending score: answers by their
/// positional score, guessables by their global score, both measured over
/// the answer corpus.
pub proof fn lemma_pools_ranked_descending(
    v: GameView,
    t: Seq<char>,
    aws: Seq<Seq<char>>,
    gws: Seq<Seq<char>>,
)
    requires
        v == spec_new_view(t, aws, gws),
    ensures
        forall|k: int, l: int|
            0 <= k < l < v.answers.len() ==> answer_score(aws, #[trigger] v.answers[k])
                >= answer_score(aws, #[trigger] v.answers[l]),
        forall|k: int, l: int|
            0 <= k < l < v.guessables.len() ==> guess_score(aws, #[trigger] v.guessables[k])
                >= guess_score(aws, #[trigger] v.guessables[l]),
{
    lemma_rank_by_sorted(aws, |w: Seq<char>| answer_score(aws, w));
    lemma_rank_by_sorted(gws, |w: Seq<char>| guess_score(aws, w));
}

} // verus!
