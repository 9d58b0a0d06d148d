use wordle::play::Gameplay;

fn words(list: &[&str]) -> Vec<String> {
    list.iter().map(|w| w.to_string()).collect()
}

#[test]
fn ranking_is_deterministic_across_runs() {
    let answers = words(&["SLATE", "CAROL", "TAROT", "ABORT", "RIDER"]);
    let guessables = words(&["SLATE", "CAROL", "TAROT", "ABORT", "RIDER", "ROBIN"]);
    let first = Gameplay::new("abort".to_string(), &answers, &guessables);
    let second = Gameplay::new("rider".to_string(), &answers, &guessables);
    assert_eq!(first.answers, second.answers);
    assert_eq!(first.guessables, second.guessables);
}

#[test]
fn answer_ranking_collapses_duplicate_letters() {
    // Positional counts: E leads position 4 with three occurrences, every
    // other letter counts once at its position. EABCE scores its repeated
    // E once, at the best of its positions (3 at position 4), for a total
    // of 6: below the two 7-point words, yet above the 5-point MNOPZ.
    let answers = words(&["EABCE", "QRSTE", "UVWXE", "MNOPZ"]);
    let gameplay = Gameplay::new("QRSTE".to_string(), &answers, &answers);
    assert_eq!(gameplay.answers, vec!["QRSTE", "UVWXE", "EABCE", "MNOPZ"]);
}

#[test]
fn equal_scores_keep_corpus_order() {
    // STALE holds the same letters as SLATE, so both pools score them
    // equally; the corpus order decides.
    let answers = words(&["SLATE", "STALE", "TAROT"]);
    let gameplay = Gameplay::new("TAROT".to_string(), &answers, &answers);
    assert_eq!(gameplay.answers[0], "SLATE");
    assert_eq!(gameplay.answers[1], "STALE");
    assert_eq!(gameplay.guessables[0], "SLATE");
    assert_eq!(gameplay.guessables[1], "STALE");
}

#[test]
fn target_case_is_normalized_at_ingestion() {
    let answers = words(&["ABORT", "TAROT"]);
    let mut lower = Gameplay::new("abort".to_string(), &answers, &answers);
    lower.add_guess(&"ABORT".to_string());
    assert!(lower.is_solved());
    assert_eq!(lower.target, vec!['A', 'B', 'O', 'R', 'T']);
}
