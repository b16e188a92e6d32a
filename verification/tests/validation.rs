use lexiflash::newstoanki;
use lexiflash::validate::is_valid_word;

#[test]
fn validates_min_length_and_letters_only() {
    assert!(!is_valid_word("test"));
    assert!(is_valid_word("tests"));
    assert!(!is_valid_word("hello!"));
    assert!(!is_valid_word("café"));
    assert!(is_valid_word("cafés"));
}

#[test]
fn letters_of_any_script_are_valid() {
    assert!(is_valid_word("привет"));
    assert!(!is_valid_word("abc12"));
    assert!(!is_valid_word("well-known"));
    assert!(!is_valid_word(""));
}

#[test]
fn latin_validation_accepts_latin_letters_only() {
    assert!(newstoanki::is_valid_word("cafés"));
    assert!(!newstoanki::is_valid_word("привет"));
    assert!(!newstoanki::is_valid_word("test"));
    assert!(!newstoanki::is_valid_word("hello!"));
}

#[test]
fn unreserved_truncation_splits_budget_before_ellipses() {
    let fox = "The quick brown fox jumps over the lazy dog";
    assert_eq!(newstoanki::truncate_context(fox, "fox", 20), "...brown fox jump...");
    assert_eq!(newstoanki::truncate_context("Ça va très bien, merci beaucoup mon ami", "merci", 20), "...ien, merci bea...");
    assert_eq!(newstoanki::truncate_context("Researchers are analyzing multilingual datasets for robust tagging.", "tagging", 25), "...r robust tagging.");
    assert_eq!(newstoanki::find_token_match("I saw a cat", "a"), Some((6, 7)));
}

#[test]
fn unlimited_search_reports_byte_offsets() {
    assert_eq!(newstoanki::find_token_match("Ça va bien", "VA"), Some((4, 6)));
    assert_eq!(newstoanki::find_token_span("Ça va bien", "VA"), Some((3, 5)));
    assert_eq!(newstoanki::find_token_match("Çava va", "va"), Some((6, 8)));
}
