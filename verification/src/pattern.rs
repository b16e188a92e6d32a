//! Regular-expression services used by word validation and token search.
//! Compilation and matching are done by the `regex` crate.
use vstd::prelude::*;
use crate::text::is_char_offset;

verus! {

/// The characters that `regex::escape` prefixes with a backslash.
pub open spec fn is_regex_meta(c: char) -> bool {
    ||| c == '\\' ||| c == '.' ||| c == '+' ||| c == '*' ||| c == '?'
    ||| c == '(' ||| c == ')' ||| c == '|' ||| c == '[' ||| c == ']'
    ||| c == '{' ||| c == '}' ||| c == '^' ||| c == '$' ||| c == '#'
    ||| c == '&' ||| c == '-' ||| c == '~'
}

/// `s` with every regex meta character preceded by a backslash: a pattern
/// that matches `s` literally.
pub open spec fn regex_escaped(s: Seq<char>) -> Seq<char>
    decreases s.len(),
{
    if s.len() == 0 {
        Seq::empty()
    } else {
        (if is_regex_meta(s[0]) { seq!['\\', s[0]] } else { seq![s[0]] }) + regex_escaped(
            s.drop_first(),
        )
    }
}

/// Whether `pattern` compiles with `regex::Regex::new`, and if so whether it
/// matches somewhere in `haystack` (`Regex::is_match`).
pub uninterp spec fn regex_match_outcome(pattern: Seq<char>, haystack: Seq<char>) -> Option<bool>;

/// When `pattern` compiles with `regex::Regex::new`, the byte spans of the
/// successive non-overlapping matches that `Regex::find_iter` reports in
/// `haystack`; `None` when it does not compile.
pub uninterp spec fn regex_match_spans(pattern: Seq<char>, haystack: Seq<char>) -> Option<Seq<(usize, usize)>>;

/// As `regex_match_spans`, for a pattern compiled by `regex::RegexBuilder`
/// with the compiled-size limit `size_limit`.
pub uninterp spec fn regex_match_spans_limited(
    pattern: Seq<char>,
    size_limit: usize,
    haystack: Seq<char>,
) -> Option<Seq<(usize, usize)>>;

/// Every span starts no later than it ends, and both ends are byte offsets
/// of character positions of `haystack`.
pub open spec fn spans_on_char_offsets(haystack: Seq<char>, spans: Seq<(usize, usize)>) -> bool {
    forall|k: int|
        0 <= k < spans.len() ==> {
            &&& (#[trigger] spans[k]).0 <= spans[k].1
            &&& is_char_offset(haystack, spans[k].0 as int)
            &&& is_char_offset(haystack, spans[k].1 as int)
        }
}

/// `regex::escape`: the source prefixes each meta character with `\`.
#[verifier::external_body]
pub(crate) fn escape_regex(text: &str) -> (r: String)
    ensures
        r@ == regex_escaped(text@),
{
    regex::escape(text)
}

/// `regex::Regex::new` followed by `Regex::is_match`. Trusted: `None` when
/// the pattern does not compile, otherwise the named match outcome.
#[verifier::external_body]
pub(crate) fn regex_is_match(pattern: &str, haystack: &str) -> (r: Option<bool>)
    ensures
        r == regex_match_outcome(pattern@, haystack@),
{
    match regex::Regex::new(pattern) {
        Ok(re) => Some(re.is_match(haystack)),
        Err(_) => None,
    }
}

/// `regex::Regex::new` followed by `Regex::find_iter`, each match taken as
/// its `(start, end)` byte offsets. Trusted: the result is the named span
/// list; the crate documents `start <= end` and that both fall on UTF-8
/// character boundaries of the haystack.
#[verifier::external_body]
pub(crate) fn regex_find_spans(pattern: &str, haystack: &str) -> (r: Option<Vec<(usize, usize)>>)
    ensures
        r is None <==> regex_match_spans(pattern@, haystack@) is None,
        r matches Some(v) ==> regex_match_spans(pattern@, haystack@) == Some(v@)
            && spans_on_char_offsets(haystack@, v@),
{
    match regex::Regex::new(pattern) {
        Ok(re) => Some(re.find_iter(haystack).map(|m| (m.start(), m.end())).collect()),
        Err(_) => None,
    }
}

/// `regex::RegexBuilder::new(pattern).size_limit(size_limit).build()`
/// followed by `Regex::find_iter`, each match taken as its `(start, end)`
/// byte offsets. Trusted as `regex_find_spans`.
#[verifier::external_body]
pub(crate) fn regex_find_spans_limited(pattern: &str, size_limit: usize, haystack: &str) -> (r: Option<
    Vec<(usize, usize)>,
>)
    ensures
        r is None <==> regex_match_spans_limited(pattern@, size_limit, haystack@) is None,
        r matches Some(v) ==> regex_match_spans_limited(pattern@, size_limit, haystack@) == Some(
            v@,
        ) && spans_on_char_offsets(haystack@, v@),
{
    match regex::RegexBuilder::new(pattern).size_limit(size_limit).build() {
        Ok(re) => Some(re.find_iter(haystack).map(|m| (m.start(), m.end())).collect()),
        Err(_) => None,
    }
}

} // verus!
