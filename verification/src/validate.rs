//! Vocabulary word validation: at least five characters, letters only.
use vstd::prelude::*;
use crate::pattern::{regex_is_match, regex_match_outcome};
use crate::text::chars_of;

verus! {

/// Minimum number of characters of a vocabulary word.
pub const MIN_WORD_CHARS: usize = 5;

/// A pattern matching words made of Unicode letters (general category L) only.
pub open spec fn letters_only_pattern() -> Seq<char> {
    "^\\p{L}+$"@
}

/// `w` has at least five characters and the letters-only pattern matches it.
pub open spec fn valid_word(w: Seq<char>) -> bool {
    w.len() >= MIN_WORD_CHARS && regex_match_outcome(letters_only_pattern(), w) == Some(true)
}

/// Whether `word` is a vocabulary candidate: at least five characters, all
/// of them Unicode letters. (Should the fixed pattern fail to compile, no
/// word is valid.)
pub fn is_valid_word(word: &str) -> (r: bool)
    ensures
        r == valid_word(word@),
{
    let matched = regex_is_match("^\\p{L}+$", word);
    let count = chars_of(word).len();
    count >= MIN_WORD_CHARS && match matched {
        Some(found) => found,
        None => false,
    }
}

} // verus!
