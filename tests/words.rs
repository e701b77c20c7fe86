use rustle::{sanitize_word, strip_non_letters, words_list, WORD_LENGTH};

#[test]
fn sanitize_is_idempotent() {
    for w in ["hello", "  Crane\r", "a-b c!d", "", "ÀBCdé", "ZEBRA"] {
        let once = sanitize_word(w);
        assert_eq!(sanitize_word(&once), once);
    }
}

#[test]
fn sanitize_trims_and_strips() {
    assert_eq!(sanitize_word("  crane \t"), "CRANE");
    assert_eq!(sanitize_word("o'neil-1"), "ONEIL");
    assert_eq!(sanitize_word("123"), "");
}

#[test]
fn normalized_word_is_unchanged() {
    assert_eq!(sanitize_word("CRANE"), "CRANE");
}

#[test]
fn strip_non_letters_keeps_letters_in_order() {
    assert_eq!(strip_non_letters("a1B2 c"), "aBc");
    assert_eq!(strip_non_letters(""), "");
}

#[test]
fn words_list_skips_header_and_filters_length() {
    let text = "crane header\nslate\ncrane\nab\nbrick!\n  tooth \nlonger\n";
    assert_eq!(words_list(text), vec!["CRANE", "BRICK", "TOOTH"]);
}

#[test]
fn words_list_header_only() {
    assert!(words_list("apple\ngrape").is_empty());
    assert!(words_list("").is_empty());
}

#[test]
fn words_list_entries_have_word_length() {
    let text = "#\n#\nhello\nworld\nhi\nabcdef\nQ-U-I-E-T\n";
    let words = words_list(text);
    assert_eq!(words, vec!["HELLO", "WORLD", "QUIET"]);
    assert!(words.iter().all(|w| w.len() == WORD_LENGTH));
}
