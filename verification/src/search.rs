//! Best-first search for a shortest solving guess sequence.
//!
//! A node is a gameplay state after some guesses; the root is seeded with
//! the fixed opening guess. Nodes are explored by ascending guess count
//! first — so the search proceeds level by level over guess depth — and by
//! ascending remaining-answer count within a level, the order a max-heap
//! under the inverted comparison would pop them in. From a node with more
//! than one remaining answer and a non-empty guess pool, one child is made
//! for every remaining guessable word; otherwise the only move is to guess
//! the best remaining answer directly. Every child strictly shrinks the
//! pools, which bounds the depth and forces the search to end.

use vstd::prelude::*;
use crate::play::{
    lemma_add_guess_shrinks, lemma_add_guess_target, lemma_add_guess_wf, spec_add_guess,
    spec_new_view, spec_solved, GameView, Gameplay,
};
use crate::score::{answer_score, guess_score, lemma_rank_by_membership, CORPUS_LIMIT};
use crate::words::{is_alpha, upper_word, wf_word, wf_words, words_view};

verus! {

/// The state after playing the guesses `gs` in order from `init`.
pub open spec fn replay(init: GameView, gs: Seq<Seq<char>>) -> GameView
    decreases gs.len(),
{
    if gs.len() == 0 {
        init
    } else {
        spec_add_guess(replay(init, gs.drop_last()), gs.last())
    }
}

/// Search nodes ordered by ascending remaining-answer count.
pub open spec fn nodes_sorted(s: Seq<Gameplay>) -> bool {
    forall|k: int, l: int|
        0 <= k < l < s.len() ==> (#[trigger] s[k])@.answers.len() <= (#[trigger] s[l])@.answers.len()
}

/// Inserts a node into a level kept sorted by ascending remaining-answer
/// count, after every node it ties with.
fn insert_node(next: &mut Vec<Gameplay>, child: Gameplay)
    requires
        nodes_sorted(old(next)@),
    ensures
        nodes_sorted(final(next)@),
        final(next)@.len() == old(next)@.len() + 1,
        forall|k: int|
            0 <= k < final(next)@.len() ==> ((#[trigger] final(next)@[k]) == child || old(
                next,
            )@.contains(final(next)@[k])),
{
    let mut j: usize = 0;
    while j < next.len() && next[j].answers.len() <= child.answers.len()
        invariant
            nodes_sorted(next@),
            j <= next@.len(),
            next == old(next),
            forall|k: int|
                0 <= k < j ==> (#[trigger] next@[k])@.answers.len() <= child@.answers.len(),
        decreases next@.len() - j,
    {
        j = j + 1;
    }
    proof {
        if (j as int) < next@.len() {
            assert(next@[j as int]@.answers.len() > child@.answers.len());
        }
    }
    let ghost prev = next@;
    let ghost jj = j as int;
    next.insert(j, child);
    proof {
        assert(next@ == prev.insert(jj, child));
        assert forall|k: int, l: int| 0 <= k < l < next@.len() implies (
        #[trigger] next@[k])@.answers.len() <= (#[trigger] next@[l])@.answers.len() by {
            if k < jj {
                assert(next@[k] == prev[k]);
            } else if k == jj {
                assert(next@[k] == child);
            } else {
                assert(next@[k] == prev[k - 1]);
            }
            if l < jj {
                assert(next@[l] == prev[l]);
            } else if l == jj {
                assert(next@[l] == child);
            } else {
                assert(next@[l] == prev[l - 1]);
            }
        }
        assert forall|k: int| 0 <= k < next@.len() implies ((#[trigger] next@[k]) == child
            || prev.contains(next@[k])) by {
            if k < jj {
                assert(next@[k] == prev[k]);
                assert(prev.contains(prev[k]));
            } else if k > jj {
                assert(next@[k] == prev[k - 1]);
                assert(prev.contains(prev[k - 1]));
            }
        }
    }
}

/// Everything the search maintains of a node at guess depth `depth`: the
/// invariant holds, the state replays from `init` through its own guesses,
/// the opening guess stands first, the pools leave room to go on below
/// `bound`, and — when the target is in play (`tin`) — the node is either
/// solved or still holds the target among its answers.
pub open spec fn good_node(
    n: Gameplay,
    init: GameView,
    targ: Seq<char>,
    tin: bool,
    depth: int,
    bound: int,
) -> bool {
    &&& n.wf()
    &&& n@.target == targ
    &&& n@.guesses.len() == depth
    &&& n@ == replay(init, n@.guesses)
    &&& n@.guesses[0] == "SLATE"@
    &&& n@.answers.len() + n@.guessables.len() + depth <= bound
    &&& (tin ==> (spec_solved(n@) || n@.answers.contains(targ)))
}

/// Searches the space of guess sequences for the given target, opening
/// with "SLATE", and returns a solved state: its guesses are a real
/// playthrough of this corpus, replayable from the starting state. When
/// the (case-normalized) target stands in the answer corpus, a solved
/// state is always found.
#[verifier::loop_isolation(false)]
pub fn find_shortest_for(target: String, answers: &Vec<String>, guessables: &Vec<String>) -> (r:
    Option<Gameplay>)
    requires
        target@.len() == 5,
        forall|i: int| 0 <= i < 5 ==> is_alpha(#[trigger] target@[i]),
        wf_words(words_view(answers@)),
        wf_words(words_view(guessables@)),
        answers@.len() <= CORPUS_LIMIT,
        guessables@.len() <= CORPUS_LIMIT,
    ensures
        ({
            let init = spec_new_view(
                upper_word(target@),
                words_view(answers@),
                words_view(guessables@),
            );
            &&& (r matches Some(g) ==> {
                &&& g.wf()
                &&& spec_solved(g@)
                &&& g@ == replay(init, g@.guesses)
                &&& g@.guesses.len() >= 1
                &&& g@.guesses[0] == "SLATE"@
                &&& g@.guess_count == g@.guesses.len()
            })
            &&& (words_view(answers@).contains(upper_word(target@)) ==> r is Some)
        }),
{
    let ghost aws = words_view(answers@);
    let ghost gws = words_view(guessables@);
    let init = Gameplay::new(target, answers, guessables);
    let ghost init_v = init@;
    let ghost targ = init_v.target;
    let ghost tin = aws.contains(targ);
    proof {
        lemma_rank_by_membership(aws, |w: Seq<char>| answer_score(aws, w));
        lemma_rank_by_membership(gws, |w: Seq<char>| guess_score(aws, w));
        assert(init_v.answers.len() == aws.len());
        assert(init_v.guessables.len() == gws.len());
        if tin {
            assert(init_v.answers.contains(targ));
        }
    }
    let opening = "SLATE".to_owned();
    proof {
        reveal_strlit("SLATE");
        assert(opening@.len() == 5);
        assert(wf_word(opening@));
    }
    let ghost bound: int = init_v.answers.len() + init_v.guessables.len() + 2int;
    let mut root = init;
    proof {
        if tin {
            lemma_add_guess_target(init_v, opening@);
        }
        lemma_add_guess_wf(init_v, opening@);
    }
    root.add_guess(&opening);
    proof {
        assert(root@ == spec_add_guess(init_v, opening@));
        assert(root@.guesses =~= seq![opening@]);
        assert(root@.guesses.drop_last() =~= Seq::<Seq<char>>::empty());
        assert(replay(init_v, root@.guesses.drop_last()) == init_v);
        assert(root@.guesses.last() == opening@);
        assert(replay(init_v, root@.guesses) == root@);
        assert(root@.guesses[0] == "SLATE"@);
        assert(good_node(root, init_v, targ, tin, 1, bound));
    }
    let mut level: Vec<Gameplay> = Vec::new();
    level.push(root);
    let mut depth: usize = 1;
    while level.len() > 0
        invariant
            1 <= depth,
            depth <= bound + 1,
            level@.len() > 0 ==> depth <= bound,
            forall|k: int|
                0 <= k < level@.len() ==> good_node(
                    #[trigger] level@[k],
                    init_v,
                    targ,
                    tin,
                    depth as int,
                    bound,
                ),
            nodes_sorted(level@),
            tin ==> level@.len() > 0,
        decreases bound + 1 - depth,
    {
        let mut next: Vec<Gameplay> = Vec::new();
        let level_len = level.len();
        for i in 0..level_len
            invariant
                level_len == level@.len(),
                forall|k: int|
                    0 <= k < level@.len() ==> good_node(
                        #[trigger] level@[k],
                        init_v,
                        targ,
                        tin,
                        depth as int,
                        bound,
                    ),
                forall|k: int|
                    0 <= k < next@.len() ==> good_node(
                        #[trigger] next@[k],
                        init_v,
                        targ,
                        tin,
                        depth as int + 1,
                        bound,
                    ),
                nodes_sorted(next@),
                tin && i > 0 ==> next@.len() > 0,
        {
            proof {
                assert(good_node(level@[i as int], init_v, targ, tin, depth as int, bound));
            }
            if level[i].is_solved() {
                let g = level.swap_remove(i);
                return Some(g);
            }
            let alen = level[i].answers.len();
            let glen = level[i].guessables.len();
            if alen == 0 {
                proof {
                    if tin {
                        assert(level@[i as int]@.answers.contains(targ));
                        assert(false);
                    }
                }
            } else if alen == 1 || glen == 0 {
                let w = level[i].answers[0].clone();
                proof {
                    let node = level@[i as int]@;
                    assert(node.answers[0] == w@);
                    assert(node.answers.contains(w@));
                    assert(wf_word(w@));
                    lemma_add_guess_shrinks(node, w@);
                    lemma_add_guess_wf(node, w@);
                    if tin {
                        lemma_add_guess_target(node, w@);
                    }
                }
                let child = level[i].clone_for_next_guess(&w);
                proof {
                    let node = level@[i as int]@;
                    assert(child@.guesses == node.guesses.push(w@));
                    assert(child@.guesses.drop_last() =~= node.guesses);
                    assert(replay(init_v, child@.guesses) == child@);
                    assert(child@.guesses[0] == node.guesses[0]);
                    assert(good_node(child, init_v, targ, tin, depth as int + 1, bound));
                }
                let ghost prevn = next@;
                insert_node(&mut next, child);
                proof {
                    assert forall|k: int| 0 <= k < next@.len() implies good_node(
                        #[trigger] next@[k],
                        init_v,
                        targ,
                        tin,
                        depth as int + 1,
                        bound,
                    ) by {
                        if next@[k] != child {
                            assert(prevn.contains(next@[k]));
                            let m = choose|m: int| 0 <= m < prevn.len() && prevn[m] == next@[k];
                            assert(good_node(prevn[m], init_v, targ, tin, depth as int + 1, bound));
                        }
                    }
                }
            } else {
                let ghost next0_len = next@.len();
                for gi in 0..glen
                    invariant
                        glen == level@[i as int]@.guessables.len(),
                        alen == level@[i as int]@.answers.len(),
                        alen >= 1,
                        glen >= 1,
                        0 <= i < level@.len(),
                        !spec_solved(level@[i as int]@),
                        forall|k: int|
                            0 <= k < next@.len() ==> good_node(
                                #[trigger] next@[k],
                                init_v,
                                targ,
                                tin,
                                depth as int + 1,
                                bound,
                            ),
                        nodes_sorted(next@),
                        next@.len() >= next0_len + gi,
                {
                    let w = level[i].guessables[gi].clone();
                    proof {
                        let node = level@[i as int]@;
                        assert(good_node(level@[i as int], init_v, targ, tin, depth as int, bound));
                        assert(node.guessables[gi as int] == w@);
                        assert(node.guessables.contains(w@));
                        assert(wf_word(w@));
                        lemma_add_guess_shrinks(node, w@);
                        lemma_add_guess_wf(node, w@);
                        if tin {
                            lemma_add_guess_target(node, w@);
                        }
                    }
                    let child = level[i].clone_for_next_guess(&w);
                    proof {
                        let node = level@[i as int]@;
                        assert(child@.guesses == node.guesses.push(w@));
                        assert(child@.guesses.drop_last() =~= node.guesses);
                        assert(replay(init_v, child@.guesses) == child@);
                        assert(child@.guesses[0] == node.guesses[0]);
                        assert(good_node(child, init_v, targ, tin, depth as int + 1, bound));
                    }
                    let ghost prevn = next@;
                    insert_node(&mut next, child);
                    proof {
                        assert forall|k: int| 0 <= k < next@.len() implies good_node(
                            #[trigger] next@[k],
                            init_v,
                            targ,
                            tin,
                            depth as int + 1,
                            bound,
                        ) by {
                            if next@[k] != child {
                                assert(prevn.contains(next@[k]));
                                let m = choose|m: int|
                                    0 <= m < prevn.len() && prevn[m] == next@[k];
                                assert(good_node(
                                    prevn[m],
                                    init_v,
                                    targ,
                                    tin,
                                    depth as int + 1,
                                    bound,
                                ));
                            }
                        }
                    }
                }
            }
        }
        proof {
            if next@.len() > 0 {
                assert(good_node(next@[0], init_v, targ, tin, depth as int + 1, bound));
            }
        }
        level = next;
        depth = depth + 1;
    }
    proof {
        assert(!tin);
    }
    None
}

} // verus!
