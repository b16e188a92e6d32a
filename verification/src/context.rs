//! Locating a target token inside a sentence and cutting the sentence down
//! to a bounded context window around it.
use vstd::prelude::*;
use crate::text::{
    byte_offset, char_byte_offsets, char_index_at, char_is_alphabetic, chars_of, is_alphabetic,
    is_char_offset, lemma_byte_offset_strict, lemma_byte_offset_zero, lemma_char_index_at,
    string_from_range,
};
use crate::pattern::{
    escape_regex, regex_escaped, regex_find_spans_limited, regex_match_spans_limited,
    spans_on_char_offsets,
};

verus! {

/// Compiled-size limit, in bytes, for the token search pattern.
pub const TOKEN_REGEX_SIZE_LIMIT: usize = 262144;

/// The three-dot ellipsis marking cut text.
pub open spec fn ellipsis() -> Seq<char> {
    seq!['.', '.', '.']
}

/// A case-insensitive regex that matches `t` literally.
pub open spec fn case_insensitive_literal(t: Seq<char>) -> Seq<char> {
    "(?i)"@ + regex_escaped(t)
}

/// The characters `s[a..b]` are not glued to a letter on either side.
pub open spec fn whole_word_at(s: Seq<char>, a: int, b: int) -> bool {
    &&& !(a > 0 && is_alphabetic(s[a - 1]))
    &&& !(b < s.len() && is_alphabetic(s[b]))
}

/// The first of the byte spans `spans` that, read as character positions of
/// `s`, is a whole-word occurrence; as a character span.
pub open spec fn first_whole_word(s: Seq<char>, spans: Seq<(usize, usize)>) -> Option<(usize, usize)>
    decreases spans.len(),
{
    if spans.len() == 0 {
        None
    } else {
        let a = char_index_at(s, spans[0].0 as int);
        let b = char_index_at(s, spans[0].1 as int);
        if whole_word_at(s, a, b) {
            Some((a as usize, b as usize))
        } else {
            first_whole_word(s, spans.drop_first())
        }
    }
}

/// The character span of the first whole-word, case-insensitive occurrence
/// of `t` in `s`; tokens shorter than two characters are never searched.
pub open spec fn token_match(s: Seq<char>, t: Seq<char>) -> Option<(usize, usize)> {
    if t.len() < 2 {
        None
    } else {
        match regex_match_spans_limited(case_insensitive_literal(t), TOKEN_REGEX_SIZE_LIMIT, s) {
            None => None,
            Some(spans) => first_whole_word(s, spans),
        }
    }
}

/// Length of a window of `p` characters before and `q` after a token of
/// `tl` characters, with an ellipsis on each side that leaves text out
/// (`pa` and `qa` characters are available before and after).
pub open spec fn window_len(tl: int, p: int, q: int, pa: int, qa: int) -> int {
    tl + p + q + (if p < pa { 3int } else { 0int }) + (if q < qa { 3int } else { 0int })
}

/// Shrinks the larger side first, one character at a time, until the window
/// fits in `max` characters or nothing is left to shrink.
pub open spec fn shrink_window(tl: int, p: nat, q: nat, pa: int, qa: int, max: int) -> (nat, nat)
    decreases p + q,
{
    if window_len(tl, p as int, q as int, pa, qa) <= max || (p == 0 && q == 0) {
        (p, q)
    } else if p > q {
        shrink_window(tl, (p - 1) as nat, q, pa, qa, max)
    } else if q > 0 {
        shrink_window(tl, p, (q - 1) as nat, pa, qa, max)
    } else {
        shrink_window(tl, (p - 1) as nat, q, pa, qa, max)
    }
}

/// The first split of the context budget: half before the token, the rest
/// after it, each capped by what is available. With `reserve`, room for the
/// ellipses that the available text would need is set aside first.
pub open spec fn initial_takes(n: int, a: int, b: int, max: int, reserve: bool) -> (nat, nat) {
    let budget = max - (b - a);
    let reserved: int = if reserve {
        (if a > 0 { 3int } else { 0int }) + (if n - b > 0 { 3int } else { 0int })
    } else {
        0int
    };
    let adjusted: int = if budget > reserved { budget - reserved } else { 0int };
    let p: int = if adjusted / 2 < a { adjusted / 2 } else { a };
    let q: int = if adjusted - p < n - b { adjusted - p } else { n - b };
    (p as nat, q as nat)
}

/// The context of the occurrence `s[a..b]` of the token `t` in at most `max`
/// characters, or `t` itself when no window around it fits.
pub open spec fn context_window(s: Seq<char>, t: Seq<char>, a: int, b: int, max: int, reserve: bool) -> Seq<char> {
    let n = s.len() as int;
    if max <= b - a {
        t
    } else {
        let takes = initial_takes(n, a, b, max, reserve);
        let pq = shrink_window(b - a, takes.0, takes.1, a, n - b, max);
        let p = pq.0 as int;
        let q = pq.1 as int;
        if window_len(b - a, p, q, a, n - b) > max {
            t
        } else {
            (if p < a { ellipsis() } else { Seq::empty() }) + s.subrange(a - p, b + q) + (if q < n - b {
                ellipsis()
            } else {
                Seq::empty()
            })
        }
    }
}

/// `s` cut to at most `max` characters around the occurrence `found` of the
/// token `t` (a character span), following the rules of `truncate_context`.
pub open spec fn truncated_context(
    s: Seq<char>,
    t: Seq<char>,
    max: int,
    found: Option<(usize, usize)>,
    reserve: bool,
) -> Seq<char> {
    if max == 0 {
        Seq::empty()
    } else if s.len() <= max {
        s
    } else if max <= 3 {
        ellipsis().take(max)
    } else {
        match found {
            None => s.take(max - 3) + ellipsis(),
            Some(span) => context_window(s, t, span.0 as int, span.1 as int, max, reserve),
        }
    }
}

/// The character position whose byte offset is `b`.
fn char_position(s: Ghost<Seq<char>>, offsets: &Vec<usize>, b: usize) -> (i: usize)
    requires
        offsets@.len() == s@.len() + 1,
        forall|k: int| 0 <= k <= s@.len() ==> #[trigger] offsets@[k] == byte_offset(s@, k),
        is_char_offset(s@, b as int),
    ensures
        i <= s@.len(),
        byte_offset(s@, i as int) == b,
        i == char_index_at(s@, b as int),
{
    let mut i: usize = 0;
    while i < offsets.len()
        invariant
            offsets@.len() == s@.len() + 1,
            forall|k: int| 0 <= k <= s@.len() ==> #[trigger] offsets@[k] == byte_offset(s@, k),
            is_char_offset(s@, b as int),
            i <= offsets@.len(),
            forall|k: int| 0 <= k < i ==> offsets@[k] != b,
        decreases offsets@.len() - i,
    {
        if offsets[i] == b {
            proof {
                lemma_char_index_at(s@, i as int);
            }
            return i;
        }
        i = i + 1;
    }
    proof {
        let j = choose|j: int| 0 <= j <= s@.len() && #[trigger] byte_offset(s@, j) == b;
        assert(offsets@[j] == b);
    }
    0
}

/// The first span of `spans` that is a whole-word occurrence in `chars`.
pub(crate) fn first_whole_word_in(chars: &Vec<char>, offsets: &Vec<usize>, spans: &Vec<(usize, usize)>) -> (r:
    Option<(usize, usize)>)
    requires
        offsets@.len() == chars@.len() + 1,
        forall|k: int| 0 <= k <= chars@.len() ==> #[trigger] offsets@[k] == byte_offset(chars@, k),
        spans_on_char_offsets(chars@, spans@),
    ensures
        r == first_whole_word(chars@, spans@),
        r matches Some(span) ==> span.0 <= span.1 <= chars@.len() && whole_word_at(
            chars@,
            span.0 as int,
            span.1 as int,
        ),
{
    let n = chars.len();
    let mut k: usize = 0;
    assert(spans@.subrange(0, spans@.len() as int) =~= spans@);
    while k < spans.len()
        invariant
            n == chars@.len(),
            offsets@.len() == chars@.len() + 1,
            forall|j: int| 0 <= j <= chars@.len() ==> #[trigger] offsets@[j] == byte_offset(chars@, j),
            spans_on_char_offsets(chars@, spans@),
            k <= spans@.len(),
            first_whole_word(chars@, spans@) == first_whole_word(
                chars@,
                spans@.subrange(k as int, spans@.len() as int),
            ),
        decreases spans@.len() - k,
    {
        let span = spans[k];
        assert(span == spans@[k as int]);
        let a = char_position(Ghost(chars@), offsets, span.0);
        let b = char_position(Ghost(chars@), offsets, span.1);
        proof {
            if a > b {
                lemma_byte_offset_strict(chars@, b as int, a as int);
            }
            let rest = spans@.subrange(k as int, spans@.len() as int);
            assert(rest[0] == span);
            assert(rest.drop_first() =~= spans@.subrange(k + 1, spans@.len() as int));
        }
        let prev_is_alpha = a > 0 && char_is_alphabetic(chars[a - 1]);
        let next_is_alpha = b < n && char_is_alphabetic(chars[b]);
        if !prev_is_alpha && !next_is_alpha {
            return Some((a, b));
        }
        k = k + 1;
    }
    None
}

/// Finds the first whole-word, case-insensitive occurrence of
/// `target_token` in `sentence` and returns its span in characters. Tokens
/// shorter than two characters are not searched.
pub fn find_token_span(sentence: &str, target_token: &str) -> (r: Option<(usize, usize)>)
    ensures
        r == token_match(sentence@, target_token@),
        r matches Some(span) ==> span.0 <= span.1 <= sentence@.len() && whole_word_at(
            sentence@,
            span.0 as int,
            span.1 as int,
        ),
{
    let token_chars = chars_of(target_token);
    if token_chars.len() == 0 {
        return None;
    }
    if token_chars.len() < 2 {
        return None;
    }
    let escaped = escape_regex(target_token);
    let mut pattern = String::from_str("(?i)");
    pattern.append(escaped.as_str());
    let spans = match regex_find_spans_limited(pattern.as_str(), TOKEN_REGEX_SIZE_LIMIT, sentence) {
        Some(v) => v,
        None => {
            return None;
        },
    };
    let chars = chars_of(sentence);
    let offsets = char_byte_offsets(sentence);
    first_whole_word_in(&chars, &offsets, &spans)
}

/// The byte offsets of a character span of `s`.
pub open spec fn byte_span(s: Seq<char>, span: Option<(usize, usize)>) -> Option<(usize, usize)> {
    match span {
        Some(sp) => Some((byte_offset(s, sp.0 as int) as usize, byte_offset(s, sp.1 as int) as usize)),
        None => None,
    }
}

/// Finds the first whole-word, case-insensitive occurrence of
/// `target_token` in `sentence` and returns its byte offsets: neither the
/// character just before it nor the one just after it is a letter. Tokens
/// shorter than two characters are not searched.
pub fn find_token_match(sentence: &str, target_token: &str) -> (r: Option<(usize, usize)>)
    ensures
        r == byte_span(sentence@, token_match(sentence@, target_token@)),
        token_match(sentence@, target_token@) matches Some(span) ==> span.0 <= span.1 <= sentence@.len()
            && whole_word_at(sentence@, span.0 as int, span.1 as int),
{
    match find_token_span(sentence, target_token) {
        Some(span) => {
            let start = byte_index_for_char_index(sentence, span.0);
            let end = byte_index_for_char_index(sentence, span.1);
            Some((start, end))
        },
        None => None,
    }
}

/// The byte offset of the character with index `char_index` in `s`, or the
/// byte length of `s` when there is no such character.
pub fn byte_index_for_char_index(s: &str, char_index: usize) -> (r: usize)
    ensures
        r == byte_offset(s@, if char_index < s@.len() { char_index as int } else { s@.len() as int }),
{
    let offsets = char_byte_offsets(s);
    if char_index == 0 {
        proof {
            lemma_byte_offset_zero(s@);
        }
        return 0;
    }
    let n = offsets.len() - 1;
    if char_index < n {
        offsets[char_index]
    } else {
        offsets[n]
    }
}

/// The characters of `s` from index `start_char` up to `end_char`, both
/// clamped to the length of `s`; empty when the clamped start lies after
/// the clamped end.
pub fn substring_by_char_range(s: &str, start_char: usize, end_char: usize) -> (r: String)
    ensures
        ({
            let n = s@.len() as int;
            let from = if start_char < n { start_char as int } else { n };
            let to = if end_char < n { end_char as int } else { n };
            r@ == if from <= to { s@.subrange(from, to) } else { Seq::empty() }
        }),
{
    let start_byte = byte_index_for_char_index(s, start_char);
    let end_byte = byte_index_for_char_index(s, end_char);
    let chars = chars_of(s);
    let n = chars.len();
    let from = if start_char < n { start_char } else { n };
    let to = if end_char < n { end_char } else { n };
    proof {
        if from > to {
            lemma_byte_offset_strict(s@, to as int, from as int);
        } else {
            lemma_byte_offset_strict(s@, from as int, to as int);
        }
    }
    if start_byte <= end_byte {
        string_from_range(&chars, from, to)
    } else {
        String::new()
    }
}

/// Runs the shrinking of `shrink_window` on concrete takes, and reports
/// which sides still need an ellipsis and whether the window fits.
fn shrink_takes(
    token_len: usize,
    prefix_take: usize,
    suffix_take: usize,
    prefix_available: usize,
    suffix_available: usize,
    max_length: usize,
) -> (r: (usize, usize, bool, bool, bool))
    requires
        token_len < max_length,
        prefix_take <= prefix_available,
        suffix_take <= suffix_available,
        token_len + prefix_take + suffix_take <= max_length,
    ensures
        r.0 <= prefix_available,
        r.1 <= suffix_available,
        shrink_window(
            token_len as int,
            prefix_take as nat,
            suffix_take as nat,
            prefix_available as int,
            suffix_available as int,
            max_length as int,
        ) == (r.0 as nat, r.1 as nat),
        r.2 == (r.0 < prefix_available),
        r.3 == (r.1 < suffix_available),
        r.4 == (window_len(
            token_len as int,
            r.0 as int,
            r.1 as int,
            prefix_available as int,
            suffix_available as int,
        ) <= max_length as int),
{
    let ghost tl = token_len as int;
    let ghost pa = prefix_available as int;
    let ghost qa = suffix_available as int;
    let ghost mx = max_length as int;
    let ghost p0 = prefix_take as nat;
    let ghost q0 = suffix_take as nat;
    let mut p = prefix_take;
    let mut q = suffix_take;
    loop
        invariant
            tl == token_len as int,
            pa == prefix_available as int,
            qa == suffix_available as int,
            mx == max_length as int,
            p0 == prefix_take as nat,
            q0 == suffix_take as nat,
            token_len < max_length,
            p <= prefix_available,
            q <= suffix_available,
            token_len + p + q <= max_length,
            shrink_window(tl, p0, q0, pa, qa, mx) == shrink_window(tl, p as nat, q as nat, pa, qa, mx),
        decreases p + q,
    {
        let left_needed = p < prefix_available;
        let right_needed = q < suffix_available;
        let ellipses: usize = (if left_needed { 3usize } else { 0usize }) + (if right_needed {
            3usize
        } else {
            0usize
        });
        let fits = ellipses <= max_length - (token_len + p + q);
        assert(fits == (window_len(tl, p as int, q as int, pa, qa) <= mx));
        if fits || (p == 0 && q == 0) {
            return (p, q, left_needed, right_needed, fits);
        }
        if p > q {
            p = p - 1;
        } else if q > 0 {
            q = q - 1;
        } else {
            p = p - 1;
        }
    }
}

/// The first split of the context budget, as `initial_takes` states it.
fn initial_takes_exec(n: usize, a: usize, b: usize, max_length: usize, reserve_ellipsis: bool) -> (r: (
    usize,
    usize,
))
    requires
        a <= b <= n,
        b - a < max_length,
    ensures
        (r.0 as nat, r.1 as nat) == initial_takes(n as int, a as int, b as int, max_length as int, reserve_ellipsis),
        r.0 <= a,
        r.1 <= n - b,
        (b - a) + r.0 + r.1 <= max_length,
{
    let prefix_available = a;
    let suffix_available = n - b;
    let budget = max_length - (b - a);
    let reserved: usize = if reserve_ellipsis {
        (if prefix_available > 0 { 3usize } else { 0usize }) + (if suffix_available > 0 { 3usize } else { 0usize })
    } else {
        0
    };
    let adjusted = if budget > reserved { budget - reserved } else { 0 };
    let prefix_take = if adjusted / 2 < prefix_available { adjusted / 2 } else { prefix_available };
    let suffix_take = if adjusted - prefix_take < suffix_available {
        adjusted - prefix_take
    } else {
        suffix_available
    };
    (prefix_take, suffix_take)
}

/// `...` (when `left`), then `sentence[from..to]`, then `...` (when `right`).
fn assemble_window(sentence: &str, from: usize, to: usize, left: bool, right: bool) -> (r: String)
    requires
        from <= to <= sentence@.len(),
    ensures
        r@ == (if left { ellipsis() } else { Seq::empty() }) + sentence@.subrange(from as int, to as int) + (
        if right {
            ellipsis()
        } else {
            Seq::empty()
        }),
{
    let mut result = String::new();
    proof {
        reveal_strlit("...");
    }
    if left {
        result.append("...");
    }
    let body = substring_by_char_range(sentence, from, to);
    result.append(body.as_str());
    if right {
        result.append("...");
    }
    assert(result@ =~= (if left { ellipsis() } else { Seq::empty() }) + sentence@.subrange(
        from as int,
        to as int,
    ) + (if right { ellipsis() } else { Seq::empty() }));
    result
}

/// The token's occurrence `s[a..b]` with context, in at most `max_length`
/// characters, or the token itself when no window around it fits.
fn context_window_exec(
    sentence: &str,
    chars: &Vec<char>,
    target_token: &str,
    a: usize,
    b: usize,
    max_length: usize,
    reserve_ellipsis: bool,
) -> (r: String)
    requires
        chars@ == sentence@,
        a <= b <= chars@.len(),
    ensures
        r@ == context_window(sentence@, target_token@, a as int, b as int, max_length as int, reserve_ellipsis),
{
    let n = chars.len();
    let token_len = b - a;
    if max_length <= token_len {
        return String::from_str(target_token);
    }
    let prefix_available = a;
    let suffix_available = n - b;
    let (prefix_take, suffix_take) = initial_takes_exec(n, a, b, max_length, reserve_ellipsis);
    let (prefix_take, suffix_take, left_needed, right_needed, fits) = shrink_takes(
        token_len,
        prefix_take,
        suffix_take,
        prefix_available,
        suffix_available,
        max_length,
    );
    if !fits {
        return String::from_str(target_token);
    }
    let result = assemble_window(sentence, a - prefix_take, b + suffix_take, left_needed, right_needed);
    proof {
        let takes = initial_takes(n as int, a as int, b as int, max_length as int, reserve_ellipsis);
        let pq = shrink_window(token_len as int, takes.0, takes.1, a as int, (n - b) as int, max_length as int);
        assert(pq.0 == prefix_take && pq.1 == suffix_take);
    }
    result
}

/// Cuts `sentence` to at most `max_length` characters of context around the
/// occurrence `found` (a character span) of `target_token`. With
/// `reserve_ellipsis`, room for the ellipses is set aside before the
/// context budget is split.
pub fn truncate_around_match(
    sentence: &str,
    target_token: &str,
    max_length: usize,
    found: Option<(usize, usize)>,
    reserve_ellipsis: bool,
) -> (r: String)
    requires
        found matches Some(span) ==> span.0 <= span.1 <= sentence@.len(),
    ensures
        r@ == truncated_context(sentence@, target_token@, max_length as int, found, reserve_ellipsis),
{
    if max_length == 0 {
        return String::new();
    }
    let chars = chars_of(sentence);
    let n = chars.len();
    if n <= max_length {
        return String::from_str(sentence);
    }
    proof {
        reveal_strlit("...");
    }
    if max_length <= 3 {
        let dots = chars_of("...");
        return string_from_range(&dots, 0, max_length);
    }
    match found {
        None => {
            let mut result = string_from_range(&chars, 0, max_length - 3);
            result.append("...");
            assert(chars@.subrange(0, max_length - 3) =~= sentence@.take(max_length - 3));
            result
        },
        Some(span) => context_window_exec(
            sentence,
            &chars,
            target_token,
            span.0,
            span.1,
            max_length,
            reserve_ellipsis,
        ),
    }
}

/// Cuts `sentence` to at most `max_length` characters of context around the
/// first whole-word, case-insensitive occurrence of `target_token`: the
/// sentence itself when short enough; otherwise the token with as balanced a
/// context as fits, `...` marking each cut side; the sentence's beginning
/// and `...` when the token is not found; the token alone when no window
/// around it fits.
pub fn truncate_context(sentence: &str, target_token: &str, max_length: usize) -> (r: String)
    ensures
        r@ == truncated_context(
            sentence@,
            target_token@,
            max_length as int,
            token_match(sentence@, target_token@),
            true,
        ),
{
    let n = chars_of(sentence).len();
    if max_length == 0 || n <= max_length || max_length <= 3 {
        return truncate_around_match(sentence, target_token, max_length, None, true);
    }
    let found = find_token_span(sentence, target_token);
    truncate_around_match(sentence, target_token, max_length, found, true)
}

/// Shrinking never grows either side of the window.
pub proof fn lemma_shrink_window_bounds(tl: int, p: nat, q: nat, pa: int, qa: int, max: int)
    ensures
        shrink_window(tl, p, q, pa, qa, max).0 <= p,
        shrink_window(tl, p, q, pa, qa, max).1 <= q,
    decreases p + q,
{
    if window_len(tl, p as int, q as int, pa, qa) <= max || (p == 0 && q == 0) {
    } else if p > q {
        lemma_shrink_window_bounds(tl, (p - 1) as nat, q, pa, qa, max);
    } else if q > 0 {
        lemma_shrink_window_bounds(tl, p, (q - 1) as nat, pa, qa, max);
    } else {
        lemma_shrink_window_bounds(tl, (p - 1) as nat, q, pa, qa, max);
    }
}

/// A truncated context never exceeds `max` characters, except when it is
/// the target token itself (a token longer than any window around it).
pub proof fn lemma_truncated_context_length(
    s: Seq<char>,
    t: Seq<char>,
    max: int,
    found: Option<(usize, usize)>,
    reserve: bool,
)
    requires
        max >= 0,
        found matches Some(span) ==> span.0 <= span.1 <= s.len(),
    ensures
        truncated_context(s, t, max, found, reserve).len() <= max || truncated_context(
            s,
            t,
            max,
            found,
            reserve,
        ) == t,
{
    if max > 3 && s.len() > max {
        if let Some(span) = found {
            let a = span.0 as int;
            let b = span.1 as int;
            let n = s.len() as int;
            if max > b - a {
                let takes = initial_takes(n, a, b, max, reserve);
                lemma_shrink_window_bounds(b - a, takes.0, takes.1, a, n - b, max);
            }
        }
    }
}

/// When the target token is found and a window around it fits, the
/// truncated context holds the token's occurrence exactly as the sentence
/// spells it; a sentence within the limit is returned unchanged. (Limits
/// of three characters or fewer leave room for the ellipsis only.)
pub proof fn lemma_truncated_context_keeps_token(
    s: Seq<char>,
    t: Seq<char>,
    max: int,
    a: usize,
    b: usize,
    reserve: bool,
)
    requires
        a <= b <= s.len(),
        max > 0,
    ensures
        s.len() <= max ==> truncated_context(s, t, max, Some((a, b)), reserve) == s,
        ({
            let r = truncated_context(s, t, max, Some((a, b)), reserve);
            max > 3 ==> r == t || exists|k: int|
                0 <= k && k + (b - a) <= r.len() && #[trigger] r.subrange(k, k + (b - a))
                    == s.subrange(a as int, b as int)
        }),
{
    let r = truncated_context(s, t, max, Some((a, b)), reserve);
    if s.len() <= max {
        let k = a as int;
        assert(r.subrange(k, k + (b - a)) == s.subrange(a as int, b as int));
    } else if max > 3 && max > b - a {
        let n = s.len() as int;
        let takes = initial_takes(n, a as int, b as int, max, reserve);
        lemma_shrink_window_bounds(b - a, takes.0, takes.1, a as int, n - b, max);
        let pq = shrink_window(b - a, takes.0, takes.1, a as int, n - b, max);
        let p = pq.0 as int;
        let q = pq.1 as int;
        if window_len(b - a, p, q, a as int, n - b) <= max {
            let left = if p < a { ellipsis() } else { Seq::<char>::empty() };
            let right = if q < n - b { ellipsis() } else { Seq::<char>::empty() };
            let body = s.subrange(a - p, b + q);
            assert(r == left + body + right);
            let k = left.len() + p;
            assert(r.subrange(k, k + (b - a)) =~= s.subrange(a as int, b as int));
        }
    }
}

/// The occurrence a search reports is a whole word: the characters just
/// before and just after it, when there are any, are not letters.
pub proof fn lemma_first_whole_word_is_whole_word(s: Seq<char>, spans: Seq<(usize, usize)>)
    requires
        s.len() <= usize::MAX,
        spans_on_char_offsets(s, spans),
    ensures
        first_whole_word(s, spans) matches Some(span) ==> {
            &&& span.0 <= span.1 <= s.len()
            &&& whole_word_at(s, span.0 as int, span.1 as int)
        },
    decreases spans.len(),
{
    if spans.len() > 0 {
        let a = char_index_at(s, spans[0].0 as int);
        let b = char_index_at(s, spans[0].1 as int);
        let ia = choose|i: int| 0 <= i <= s.len() && #[trigger] byte_offset(s, i) == spans[0].0 as int;
        let ib = choose|i: int| 0 <= i <= s.len() && #[trigger] byte_offset(s, i) == spans[0].1 as int;
        lemma_char_index_at(s, ia);
        lemma_char_index_at(s, ib);
        if a > b {
            lemma_byte_offset_strict(s, b, a);
        }
        if !whole_word_at(s, a, b) {
            assert forall|k: int| 0 <= k < spans.drop_first().len() implies {
                &&& (#[trigger] spans.drop_first()[k]).0 <= spans.drop_first()[k].1
                &&& is_char_offset(s, spans.drop_first()[k].0 as int)
                &&& is_char_offset(s, spans.drop_first()[k].1 as int)
            } by {
                assert(spans.drop_first()[k] == spans[k + 1]);
            }
            lemma_first_whole_word_is_whole_word(s, spans.drop_first());
        }
    }
}

} // verus!
