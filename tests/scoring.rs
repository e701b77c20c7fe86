use rustle::{create_charmap, sanitize_word, score_guess, RustleGame, Verdict};
use std::collections::HashSet;

fn game_with(secret: &str) -> RustleGame {
    RustleGame::with_secret(Vec::new(), secret.to_string())
}

fn eliminated(game: &RustleGame) -> HashSet<char> {
    game.guessed_letters().iter().cloned().collect()
}

#[test]
fn test_sanitize_word() {
    assert_eq!(sanitize_word("hello"), "HELLO");
    assert_eq!(sanitize_word("hello world"), "HELLOWORLD");
}

#[test]
fn test_create_charmap() {
    let word = "hello";
    let charmap = create_charmap(word);
    assert_eq!(charmap[&('h' as u32)], 1);
    assert_eq!(charmap[&('e' as u32)], 1);
    assert_eq!(charmap[&('l' as u32)], 2);
    assert_eq!(charmap[&('o' as u32)], 1);
}

#[test]
fn test_colorize_guess_all_correct() {
    let mut game = game_with("ABC");
    let colored_guess = game.colorize_guess(&("ABC".to_string()));
    assert_eq!(
        colored_guess,
        vec![('A', Verdict::Correct), ('B', Verdict::Correct), ('C', Verdict::Correct)]
    );
    assert_eq!(eliminated(&game), (vec![]).into_iter().collect());
}

#[test]
fn test_colorize_guess_all_incorrect() {
    let mut game = game_with("ABC");
    let colored_guess = game.colorize_guess(&("DEF".to_string()));
    assert_eq!(
        colored_guess,
        vec![('D', Verdict::Absent), ('E', Verdict::Absent), ('F', Verdict::Absent)]
    );
    assert_eq!(eliminated(&game), vec!['D', 'E', 'F'].into_iter().collect());
}

#[test]
fn test_colorize_guess_two_misplaced() {
    let mut game = game_with("ABC");
    let colored_guess = game.colorize_guess(&("ACB".to_string()));
    assert_eq!(
        colored_guess,
        vec![('A', Verdict::Correct), ('C', Verdict::Misplaced), ('B', Verdict::Misplaced)]
    );
    assert_eq!(eliminated(&game), (vec![]).into_iter().collect());
}

#[test]
fn test_colorize_guess_one_correct_one_misplaced() {
    let mut game = game_with("ABC");
    let colored_guess = game.colorize_guess(&("ACD".to_string()));
    assert_eq!(
        colored_guess,
        vec![('A', Verdict::Correct), ('C', Verdict::Misplaced), ('D', Verdict::Absent)]
    );
    assert_eq!(eliminated(&game), vec!['D'].into_iter().collect());
}

#[test]
fn charmap_of_empty_word_is_empty() {
    assert!(create_charmap("").is_empty());
}

#[test]
fn repeated_guess_letter_marked_once_when_exact() {
    // The secret holds A once; the guess holds it twice.
    let mut game = game_with("ABC");
    let r = game.colorize_guess("AAD");
    assert_eq!(r, vec![('A', Verdict::Correct), ('A', Verdict::Absent), ('D', Verdict::Absent)]);
    assert_eq!(eliminated(&game), vec!['D'].into_iter().collect());
}

#[test]
fn repeated_guess_letter_marked_once_when_misplaced() {
    let mut game = game_with("ABC");
    let r = game.colorize_guess("CCX");
    assert_eq!(r, vec![('C', Verdict::Misplaced), ('C', Verdict::Absent), ('X', Verdict::Absent)]);
    assert_eq!(eliminated(&game), vec!['X'].into_iter().collect());
}

#[test]
fn exact_match_takes_precedence_over_earlier_misplaced() {
    // The B at position 1 is exact, so the earlier B finds no spare B.
    let r = score_guess("ABC", "BBX");
    assert_eq!(r, vec![('B', Verdict::Absent), ('B', Verdict::Correct), ('X', Verdict::Absent)]);
}

#[test]
fn repeated_secret_letter_serves_two_misplaced_guesses() {
    let r = score_guess("AAB", "BXA");
    assert_eq!(r, vec![('B', Verdict::Misplaced), ('X', Verdict::Absent), ('A', Verdict::Misplaced)]);
    let r = score_guess("XAAY", "AZZA");
    assert_eq!(
        r,
        vec![('A', Verdict::Misplaced), ('Z', Verdict::Absent), ('Z', Verdict::Absent), ('A', Verdict::Misplaced)]
    );
}

#[test]
fn marked_count_is_the_smaller_multiplicity() {
    let secret = "ABBEY";
    let guess = "BBBXB";
    let r = score_guess(secret, guess);
    let marked = r.iter().filter(|(c, v)| *c == 'B' && *v != Verdict::Absent).count();
    assert_eq!(marked, 2);
}

#[test]
fn eliminated_letters_accumulate_across_guesses() {
    let mut game = game_with("ABCDE");
    game.colorize_guess("FGHIJ");
    game.colorize_guess("AKLMN");
    let expected: HashSet<char> = "FGHIJKLMN".chars().collect();
    assert_eq!(eliminated(&game), expected);
}

#[test]
fn scoring_is_reproducible() {
    assert_eq!(score_guess("CRANE", "NACRE"), score_guess("CRANE", "NACRE"));
    assert_eq!(
        score_guess("CRANE", "NACRE"),
        vec![
            ('N', Verdict::Misplaced),
            ('A', Verdict::Misplaced),
            ('C', Verdict::Misplaced),
            ('R', Verdict::Misplaced),
            ('E', Verdict::Correct)
        ]
    );
}
