use wordle::play::Gameplay;
use wordle::search::find_shortest_for;

/// The answer corpus the gameplay tests run against.
fn answer_corpus() -> Vec<String> {
    [
        "SLATE", "STALE", "SKATE", "SPATE", "SHALE", "SCALE", "PLATE", "SLANT", "SLOPE", "SUITE",
        "CAROL", "TAROT", "ABORT", "EIDER", "CIDER", "WIDER", "HIDER", "DINER", "RIDER",
    ]
    .iter()
    .map(|w| w.to_string())
    .collect()
}

/// The guess corpus: the answers plus one word that is legal to guess but
/// never a target.
fn guess_corpus() -> Vec<String> {
    let mut words = answer_corpus();
    words.push("ROBIN".to_string());
    words
}

/// Plays one game straight through with the greedy selector and reports
/// how many guesses it took.
fn score_for(word: &str) -> usize {
    let target = word.to_string();
    let mut gameplay = Gameplay::new(target, &answer_corpus(), &guess_corpus());
    while !gameplay.is_solved() {
        let guess = gameplay.next_guess().expect("no candidates remain");
        gameplay.add_guess(&guess);
    }
    gameplay.guess_count()
}

#[test]
fn abort_takes_3_guesses() {
    assert_eq!(score_for("abort"), 3);
}

#[test]
fn rider_takes_6_guesses() {
    assert_eq!(score_for("rider"), 6);
}

#[test]
fn abort_game_opens_with_slate() {
    let mut gameplay = Gameplay::new("abort".to_string(), &answer_corpus(), &guess_corpus());
    while !gameplay.is_solved() {
        let guess = gameplay.next_guess().expect("no candidates remain");
        gameplay.add_guess(&guess);
    }
    assert_eq!(gameplay.guesses, vec!["SLATE", "TAROT", "ABORT"]);
}

#[test]
fn guessing_target_solves_immediately() {
    let mut gameplay = Gameplay::new("abort".to_string(), &answer_corpus(), &guess_corpus());
    assert!(!gameplay.is_solved());
    gameplay.add_guess(&"ABORT".to_string());
    assert!(gameplay.is_solved());
    assert_eq!(gameplay.guess_count(), 1);
}

#[test]
fn crane_against_abort_records_absent_letters() {
    let mut gameplay = Gameplay::new("ABORT".to_string(), &answer_corpus(), &guess_corpus());
    gameplay.add_guess(&"CRANE".to_string());
    // C, N and E are absent from ABORT; no position was confirmed.
    assert!(gameplay.gray.contains(&'C'));
    assert!(gameplay.gray.contains(&'N'));
    assert!(gameplay.green.iter().all(|slot| slot.is_none()));
    // R and A were tried at the wrong positions.
    assert_eq!(gameplay.yellow[1], Some('R'));
    assert_eq!(gameplay.yellow[2], Some('A'));
    // The answer pool excludes every word holding an absent letter.
    for word in &gameplay.answers {
        assert!(!word.contains('C') && !word.contains('N'));
    }
}

#[test]
fn answer_pool_consistent_after_each_guess() {
    let mut gameplay = Gameplay::new("rider".to_string(), &answer_corpus(), &guess_corpus());
    while !gameplay.is_solved() {
        let guess = gameplay.next_guess().expect("no candidates remain");
        gameplay.add_guess(&guess);
        for word in &gameplay.answers {
            for (i, slot) in gameplay.yellow.iter().enumerate() {
                if let Some(c) = slot {
                    assert!(word.contains(*c));
                    assert_ne!(word.chars().nth(i), Some(*c));
                }
            }
            for c in &gameplay.gray {
                assert!(!word.contains(*c));
            }
            for (i, slot) in gameplay.green.iter().enumerate() {
                if let Some(c) = slot {
                    assert_eq!(word.chars().nth(i), Some(*c));
                }
            }
        }
    }
}

#[test]
fn pool_sizes_never_grow() {
    let mut gameplay = Gameplay::new("rider".to_string(), &answer_corpus(), &guess_corpus());
    let mut answers_before = gameplay.answers.len();
    let mut guessables_before = gameplay.guessables.len();
    while !gameplay.is_solved() {
        let guess = gameplay.next_guess().expect("no candidates remain");
        gameplay.add_guess(&guess);
        assert!(gameplay.answers.len() <= answers_before);
        assert!(gameplay.guessables.len() <= guessables_before);
        answers_before = gameplay.answers.len();
        guessables_before = gameplay.guessables.len();
    }
}

#[test]
fn clone_for_next_guess_leaves_original_untouched() {
    let gameplay = Gameplay::new("abort".to_string(), &answer_corpus(), &guess_corpus());
    let target = gameplay.target.clone();
    let guesses = gameplay.guesses.clone();
    let guess_count = gameplay.guess_count;
    let green = gameplay.green.clone();
    let yellow = gameplay.yellow.clone();
    let gray = gameplay.gray.clone();
    let used = gameplay.used.clone();
    let answers = gameplay.answers.clone();
    let guessables = gameplay.guessables.clone();

    let branch = gameplay.clone_for_next_guess(&"SLATE".to_string());
    assert_eq!(branch.guess_count, 1);

    assert_eq!(gameplay.target, target);
    assert_eq!(gameplay.guesses, guesses);
    assert_eq!(gameplay.guess_count, guess_count);
    assert_eq!(gameplay.green, green);
    assert_eq!(gameplay.yellow, yellow);
    assert_eq!(gameplay.gray, gray);
    assert_eq!(gameplay.used, used);
    assert_eq!(gameplay.answers, answers);
    assert_eq!(gameplay.guessables, guessables);
}

#[test]
fn next_guess_reports_exhausted_pool() {
    // No corpus word survives the feedback QUEUE gives on SLATE.
    let mut gameplay = Gameplay::new("queue".to_string(), &answer_corpus(), &guess_corpus());
    let opening = gameplay.next_guess().expect("pool starts full");
    gameplay.add_guess(&opening);
    assert!(!gameplay.is_solved());
    assert!(gameplay.answers.is_empty());
    assert_eq!(gameplay.next_guess(), None);
}

#[test]
fn play_to_end_reports_unsolvable() {
    let mut gameplay = Gameplay::new("queue".to_string(), &answer_corpus(), &guess_corpus());
    assert_eq!(gameplay.play_to_end(), None);
    let mut empty = Gameplay::new("abort".to_string(), &Vec::new(), &Vec::new());
    assert_eq!(empty.play_to_end(), None);
}

#[test]
fn play_to_end_matches_manual_playthrough() {
    let mut gameplay = Gameplay::new("rider".to_string(), &answer_corpus(), &guess_corpus());
    assert_eq!(gameplay.play_to_end(), Some(6));
    assert!(gameplay.is_solved());
}

#[test]
fn search_never_does_worse_than_greedy() {
    let greedy = score_for("abort");
    let solved = find_shortest_for("ABORT".to_string(), &answer_corpus(), &guess_corpus())
        .expect("a solving sequence exists");
    assert!(solved.guess_count() <= greedy);
    assert_eq!(solved.guesses[0], "SLATE");
    assert_eq!(solved.guesses.last().map(|w| w.as_str()), Some("ABORT"));
}

#[test]
fn search_reports_no_solution_for_absent_target() {
    let result = find_shortest_for("QUEUE".to_string(), &answer_corpus(), &guess_corpus());
    assert!(result.is_none());
}
