use rustle::{GameStatus, GuessError, RustleGame, Verdict, MAX_TRIES};

fn dictionary() -> Vec<String> {
    ["CRANE", "SLATE", "BRICK", "TOOTH", "PLANT", "GHOST", "MOUSE", "QUIET"]
        .iter()
        .map(|w| w.to_string())
        .collect()
}

fn game() -> RustleGame {
    RustleGame::with_secret(dictionary(), "CRANE".to_string())
}

#[test]
fn wrong_length_is_refused() {
    let mut g = game();
    assert!(matches!(g.submit_guess("cran"), Err(GuessError::WrongLength)));
    assert!(matches!(g.submit_guess("cranes"), Err(GuessError::WrongLength)));
    assert!(g.guesses().is_empty());
}

#[test]
fn unknown_word_is_refused_with_its_name() {
    let mut g = game();
    match g.submit_guess("zzzzz") {
        Err(GuessError::UnknownWord(w)) => assert_eq!(w, "ZZZZZ"),
        _ => panic!("expected an unknown word"),
    }
    assert!(g.guesses().is_empty());
    assert!(g.guessed_letters().is_empty());
}

#[test]
fn accepted_guess_is_scored_and_recorded() {
    let mut g = game();
    let w = g.submit_guess(" slate\n").unwrap();
    assert_eq!(w, "SLATE");
    assert_eq!(g.guesses().len(), 1);
    assert_eq!(
        g.guesses()[0],
        vec![
            ('S', Verdict::Absent),
            ('L', Verdict::Absent),
            ('A', Verdict::Correct),
            ('T', Verdict::Absent),
            ('E', Verdict::Correct)
        ]
    );
    assert_eq!(g.status(), GameStatus::InProgress);
    assert!(!g.is_game_over(&w));
}

#[test]
fn exact_guess_wins_at_once() {
    let mut g = game();
    let w = g.submit_guess("crane").unwrap();
    assert_eq!(g.status(), GameStatus::Won);
    assert!(g.is_game_over(&w));
    assert_eq!(g.guesses().len(), 1);
}

#[test]
fn game_is_lost_after_max_tries() {
    let mut g = game();
    let wrong = ["slate", "brick", "tooth", "plant", "ghost", "mouse"];
    assert_eq!(wrong.len(), MAX_TRIES);
    for (i, w) in wrong.iter().enumerate() {
        assert_eq!(g.status(), GameStatus::InProgress);
        let accepted = g.submit_guess(w).unwrap();
        if i + 1 < MAX_TRIES {
            assert!(!g.is_game_over(&accepted));
        }
    }
    assert_eq!(g.status(), GameStatus::Lost);
    assert!(g.is_game_over("SLATE"));
}

#[test]
fn refused_guesses_do_not_use_tries() {
    let mut g = game();
    for _ in 0..10 {
        assert!(g.submit_guess("xx").is_err());
        assert!(g.submit_guess("abcde").is_err());
    }
    assert_eq!(g.status(), GameStatus::InProgress);
    assert!(g.guesses().is_empty());
}

#[test]
fn win_on_last_try() {
    let mut g = game();
    for w in ["slate", "brick", "tooth", "plant", "ghost"] {
        g.submit_guess(w).unwrap();
    }
    g.submit_guess("CRANE").unwrap();
    assert_eq!(g.status(), GameStatus::Won);
}

#[test]
fn new_draws_secret_from_dictionary() {
    let text = "header\nheader\ncrane\nslate\nxy\nbrick\n";
    let g = RustleGame::new(text).unwrap();
    let secret = g.word().to_string();
    assert!(["CRANE", "SLATE", "BRICK"].contains(&secret.as_str()));
    assert_eq!(g.dictionary().len(), 3);
    assert_eq!(g.status(), GameStatus::InProgress);
}

#[test]
fn new_single_candidate() {
    let g = RustleGame::new("h\nh\nplant").unwrap();
    assert_eq!(g.word(), "PLANT");
}

#[test]
fn new_without_candidates_is_none() {
    assert!(RustleGame::new("only\nheader\nxy\n").is_none());
    assert!(RustleGame::new("").is_none());
}
