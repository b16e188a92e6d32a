//! The validation and truncation rules of the `newstoanki` extension
//! module: Latin letters only, no size limit on the search pattern, and no
//! room reserved for the ellipses when the context budget is split.
use vstd::prelude::*;
use crate::context::{
    byte_index_for_char_index, byte_span, case_insensitive_literal, first_whole_word,
    first_whole_word_in, truncate_around_match, truncated_context, whole_word_at,
};
use crate::pattern::{escape_regex, regex_find_spans, regex_is_match, regex_match_outcome, regex_match_spans};
use crate::text::{char_byte_offsets, chars_of};

verus! {

/// A pattern matching words made of ASCII letters and the Latin-1 letters
/// `À`..`ÿ` only.
pub open spec fn latin_letters_pattern() -> Seq<char> {
    "^[a-zA-ZÀ-ÿ]+$"@
}

/// `w` has at least five characters and the Latin-letters pattern matches it.
pub open spec fn latin_valid_word(w: Seq<char>) -> bool {
    w.len() >= 5 && regex_match_outcome(latin_letters_pattern(), w) == Some(true)
}

/// The character span of the first whole-word, case-insensitive occurrence
/// of a non-empty `t` in `s`.
pub open spec fn unlimited_token_match(s: Seq<char>, t: Seq<char>) -> Option<(usize, usize)> {
    if t.len() == 0 {
        None
    } else {
        match regex_match_spans(case_insensitive_literal(t), s) {
            None => None,
            Some(spans) => first_whole_word(s, spans),
        }
    }
}

/// Whether `word` has at least five characters, all ASCII or Latin-1
/// letters. (Should the fixed pattern fail to compile, no word is valid.)
pub fn is_valid_word(word: &str) -> (r: bool)
    ensures
        r == latin_valid_word(word@),
{
    if chars_of(word).len() < 5 {
        return false;
    }
    match regex_is_match("^[a-zA-ZÀ-ÿ]+$", word) {
        Some(found) => found,
        None => false,
    }
}

/// The span in characters of the first whole-word, case-insensitive
/// occurrence of `target_token` in `sentence`.
pub fn find_token_span(sentence: &str, target_token: &str) -> (r: Option<(usize, usize)>)
    ensures
        r == unlimited_token_match(sentence@, target_token@),
        r matches Some(span) ==> span.0 <= span.1 <= sentence@.len() && whole_word_at(
            sentence@,
            span.0 as int,
            span.1 as int,
        ),
{
    if chars_of(target_token).len() == 0 {
        return None;
    }
    let escaped = escape_regex(target_token);
    let mut pattern = String::from_str("(?i)");
    pattern.append(escaped.as_str());
    let spans = match regex_find_spans(pattern.as_str(), sentence) {
        Some(v) => v,
        None => {
            return None;
        },
    };
    let chars = chars_of(sentence);
    let offsets = char_byte_offsets(sentence);
    first_whole_word_in(&chars, &offsets, &spans)
}

/// The byte offsets of the first whole-word, case-insensitive occurrence of
/// `target_token` in `sentence`: neither the character just before it nor
/// the one just after it is a letter.
pub fn find_token_match(sentence: &str, target_token: &str) -> (r: Option<(usize, usize)>)
    ensures
        r == byte_span(sentence@, unlimited_token_match(sentence@, target_token@)),
        unlimited_token_match(sentence@, target_token@) matches Some(span) ==> span.0 <= span.1
            <= sentence@.len() && whole_word_at(sentence@, span.0 as int, span.1 as int),
{
    match find_token_span(sentence, target_token) {
        Some(span) => {
            let start = byte_index_for_char_index(sentence, span.0);
            let end = byte_index_for_char_index(sentence, span.1);
            Some((start, end))
        },
        None => None,
    }
}

/// Cuts `sentence` to at most `max_length` characters of context around the
/// first whole-word occurrence of `target_token`, splitting the context
/// budget before the ellipses are accounted for.
pub fn truncate_context(sentence: &str, target_token: &str, max_length: usize) -> (r: String)
    ensures
        r@ == truncated_context(
            sentence@,
            target_token@,
            max_length as int,
            unlimited_token_match(sentence@, target_token@),
            false,
        ),
{
    let n = chars_of(sentence).len();
    if max_length == 0 || n <= max_length || max_length <= 3 {
        return truncate_around_match(sentence, target_token, max_length, None, false);
    }
    let found = find_token_span(sentence, target_token);
    truncate_around_match(sentence, target_token, max_length, found, false)
}

} // verus!
