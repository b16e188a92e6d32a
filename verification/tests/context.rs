use lexiflash::context::{
    byte_index_for_char_index, find_token_match, find_token_span, substring_by_char_range, truncate_around_match,
    truncate_context,
};

const FOX: &str = "The quick brown fox jumps over the lazy dog";
const RESEARCH: &str = "Researchers are analyzing multilingual datasets for robust tagging.";

#[test]
fn short_sentence_is_returned_unchanged() {
    assert_eq!(truncate_context("short sentence", "short", 50), "short sentence");
}

#[test]
fn zero_limit_gives_empty_context() {
    assert_eq!(truncate_context(FOX, "fox", 0), "");
}

#[test]
fn tiny_limit_gives_only_dots() {
    assert_eq!(truncate_context(FOX, "fox", 2), "..");
    assert_eq!(truncate_context(FOX, "fox", 3), "...");
}

#[test]
fn window_is_balanced_around_token() {
    assert_eq!(truncate_context(FOX, "fox", 20), "...rown fox jumps...");
}

#[test]
fn match_is_case_insensitive() {
    assert_eq!(truncate_context(FOX, "FOX", 20), "...rown fox jumps...");
}

#[test]
fn missing_token_keeps_sentence_start() {
    assert_eq!(truncate_context(FOX, "cat", 20), "The quick brown f...");
}

#[test]
fn match_must_be_a_whole_word() {
    assert_eq!(truncate_context("foxes and a fox here at the end", "fox", 15), "... a fox he...");
    assert_eq!(find_token_match("foxes and a fox here at the end", "fox"), Some((12, 15)));
    assert_eq!(find_token_match("xfox fox", "fox"), Some((5, 8)));
    assert_eq!(truncate_context("xfox fox", "fox", 6), "...fox");
}

#[test]
fn token_too_long_for_window_is_returned_alone() {
    let s = "abcdefghij reading klmnopqrst";
    assert_eq!(truncate_context(s, "reading", 7), "reading");
    assert_eq!(truncate_context(s, "reading", 8), "reading");
    assert_eq!(truncate_context(s, "reading", 12), "reading");
}

#[test]
fn token_at_start_or_end() {
    assert_eq!(truncate_context(RESEARCH, "Researchers", 20), "Researchers are a...");
    assert_eq!(truncate_context(RESEARCH, "tagging", 25), "...obust tagging.");
    assert_eq!(truncate_context(RESEARCH, "datasets", 30), "...lingual datasets for rob...");
}

#[test]
fn one_letter_tokens_are_not_searched() {
    let s = "I saw a cat and a dog walking by the river";
    assert_eq!(find_token_match(s, "a"), None);
    assert_eq!(truncate_context(s, "a", 20), "I saw a cat and a...");
}

#[test]
fn non_ascii_text_is_cut_by_characters() {
    assert_eq!(truncate_context("Ça va très bien, merci beaucoup mon ami", "merci", 20), "...en, merci beau...");
    assert_eq!(truncate_context("naïve café, très naïve indeed here", "café", 14), "...e café, ...");
    assert_eq!(find_token_match("naïve café, très naïve", "CAFÉ"), Some((7, 12)));
    assert_eq!(find_token_span("naïve café, très naïve", "CAFÉ"), Some((6, 10)));
}

#[test]
fn context_never_exceeds_limit_unless_token() {
    for max in 0..60 {
        let r = truncate_context(RESEARCH, "multilingual", max);
        assert!(r.chars().count() <= max || r == "multilingual");
    }
}

#[test]
fn truncation_around_given_span() {
    assert_eq!(truncate_around_match("hello big world", "big", 9, Some((6, 9)), true), "...big...");
    assert_eq!(truncate_around_match("hello big world", "big", 9, None, true), "hello ...");
}

#[test]
fn byte_index_counts_utf8_bytes() {
    assert_eq!(byte_index_for_char_index("héllo", 0), 0);
    assert_eq!(byte_index_for_char_index("héllo", 2), 3);
    assert_eq!(byte_index_for_char_index("héllo", 5), 6);
    assert_eq!(byte_index_for_char_index("héllo", 9), 6);
}

#[test]
fn substring_uses_character_positions() {
    assert_eq!(substring_by_char_range("héllo wörld", 1, 4), "éll");
    assert_eq!(substring_by_char_range("héllo wörld", 6, 50), "wörld");
    assert_eq!(substring_by_char_range("héllo", 4, 2), "");
}

#[test]
fn token_is_matched_literally() {
    let s = "version 3x5 or 3.5 here";
    assert_eq!(find_token_match(s, "3.5"), Some((15, 18)));
    assert_eq!(find_token_match("a (b) c", "(b)"), Some((2, 5)));
}

#[test]
fn found_token_stays_in_context() {
    for max in 4..70 {
        let r = truncate_context(RESEARCH, "MULTILINGUAL", max);
        assert!(r.contains("multilingual") || r == "MULTILINGUAL");
    }
}
