//! Line-oriented word-list formats: the stop-word and known-word lists (one
//! word per line) and the WordNet `lexnames` table (`id name` per line).
use vstd::prelude::*;
use std::collections::HashMap;
use crate::text::{char_is_whitespace, chars_of, is_white_space, lowercase_of, string_from_range, to_lowercase};

verus! {

/// The pieces of `s` between line feeds, in order (`k` line feeds give
/// `k + 1` pieces; a carriage return before a line feed stays in its piece).
pub open spec fn line_pieces(s: Seq<char>) -> Seq<Seq<char>>
    decreases s.len(),
{
    if s.len() == 0 {
        seq![Seq::empty()]
    } else if s.last() == '\n' {
        line_pieces(s.drop_last()).push(Seq::empty())
    } else {
        let prev = line_pieces(s.drop_last());
        prev.update(prev.len() - 1, prev.last().push(s.last()))
    }
}

/// `s` without its leading white space.
pub open spec fn trim_start(s: Seq<char>) -> Seq<char>
    decreases s.len(),
{
    if s.len() > 0 && is_white_space(s[0]) {
        trim_start(s.drop_first())
    } else {
        s
    }
}

/// `s` without its trailing white space.
pub open spec fn trim_end(s: Seq<char>) -> Seq<char>
    decreases s.len(),
{
    if s.len() > 0 && is_white_space(s.last()) {
        trim_end(s.drop_last())
    } else {
        s
    }
}

/// `s` without leading and trailing white space (`str::trim`).
pub open spec fn trim(s: Seq<char>) -> Seq<char> {
    trim_end(trim_start(s))
}

/// The lines of a word-list file that are not blank, trimmed and
/// lower-cased, in file order.
pub open spec fn word_lines(lines: Seq<Seq<char>>) -> Seq<Seq<char>>
    decreases lines.len(),
{
    if lines.len() == 0 {
        Seq::empty()
    } else {
        let prev = word_lines(lines.drop_last());
        let t = trim(lines.last());
        if t.len() == 0 {
            prev
        } else {
            prev.push(lowercase_of(t))
        }
    }
}

/// The words listed in the text of a word-list file.
pub open spec fn word_list(content: Seq<char>) -> Seq<Seq<char>> {
    word_lines(line_pieces(content))
}

/// The `(start, end)` character spans of the pieces of `s` between line
/// feeds.
pub fn line_spans(chars: &Vec<char>) -> (spans: Vec<(usize, usize)>)
    ensures
        spans@.len() == line_pieces(chars@).len(),
        forall|k: int|
            0 <= k < spans@.len() ==> {
                &&& (#[trigger] spans@[k]).0 <= spans@[k].1 <= chars@.len()
                &&& chars@.subrange(spans@[k].0 as int, spans@[k].1 as int) == line_pieces(chars@)[k]
            },
{
    let mut spans: Vec<(usize, usize)> = Vec::new();
    let mut start: usize = 0;
    let mut i: usize = 0;
    assert(chars@.take(0) =~= Seq::<char>::empty());
    while i < chars.len()
        invariant
            start <= i <= chars@.len(),
            line_pieces(chars@.take(i as int)).len() == spans@.len() + 1,
            line_pieces(chars@.take(i as int)).last() == chars@.subrange(start as int, i as int),
            forall|k: int|
                0 <= k < spans@.len() ==> {
                    &&& (#[trigger] spans@[k]).0 <= spans@[k].1 <= start
                    &&& chars@.subrange(spans@[k].0 as int, spans@[k].1 as int) == line_pieces(
                        chars@.take(i as int),
                    )[k]
                },
        decreases chars@.len() - i,
    {
        let ghost prev = line_pieces(chars@.take(i as int));
        assert(chars@.take(i + 1).drop_last() =~= chars@.take(i as int));
        assert(chars@.take(i + 1).last() == chars@[i as int]);
        if chars[i] == '\n' {
            spans.push((start, i));
            start = i + 1;
            assert(chars@.subrange(start as int, i + 1) =~= Seq::<char>::empty());
        } else {
            assert(chars@.subrange(start as int, i + 1) =~= chars@.subrange(start as int, i as int).push(chars@[i as int]));
        }
        i = i + 1;
    }
    spans.push((start, i));
    assert(chars@.take(i as int) =~= chars@);
    spans
}

/// The span of `chars[from..to]` without leading and trailing white space.
pub fn trim_span(chars: &Vec<char>, from: usize, to: usize) -> (r: (usize, usize))
    requires
        from <= to <= chars@.len(),
    ensures
        from <= r.0 <= r.1 <= to,
        chars@.subrange(r.0 as int, r.1 as int) == trim(chars@.subrange(from as int, to as int)),
{
    let mut a = from;
    while a < to && char_is_whitespace(chars[a])
        invariant
            from <= a <= to <= chars@.len(),
            trim_start(chars@.subrange(from as int, to as int)) == trim_start(chars@.subrange(a as int, to as int)),
        decreases to - a,
    {
        assert(chars@.subrange(a as int, to as int).drop_first() =~= chars@.subrange(a + 1, to as int));
        a = a + 1;
    }
    let mut b = to;
    while b > a && char_is_whitespace(chars[b - 1])
        invariant
            from <= a <= b <= to <= chars@.len(),
            trim_end(chars@.subrange(a as int, to as int)) == trim_end(chars@.subrange(a as int, b as int)),
        decreases b - a,
    {
        assert(chars@.subrange(a as int, b as int).drop_last() =~= chars@.subrange(a as int, b - 1));
        b = b - 1;
    }
    (a, b)
}

/// A set of words, as read from a word-list file.
pub struct WordSet {
    words: Vec<String>,
}

impl View for WordSet {
    type V = Set<Seq<char>>;

    closed spec fn view(&self) -> Set<Seq<char>> {
        self.words@.map_values(|w: String| w@).to_set()
    }
}

impl WordSet {
    /// The empty set.
    pub fn new() -> (r: WordSet)
        ensures
            r@ == Set::<Seq<char>>::empty(),
    {
        let r = WordSet { words: Vec::new() };
        assert(r@ =~= Set::<Seq<char>>::empty());
        r
    }

    /// Whether `word` is in the set.
    pub fn contains(&self, word: &String) -> (r: bool)
        ensures
            r == self@.contains(word@),
    {
        let mut i: usize = 0;
        while i < self.words.len()
            invariant
                i <= self.words@.len(),
                forall|k: int| 0 <= k < i ==> self.words@[k]@ != word@,
            decreases self.words@.len() - i,
        {
            if self.words[i] == *word {
                assert(self.words@.map_values(|w: String| w@)[i as int] == word@);
                return true;
            }
            i = i + 1;
        }
        proof {
            if self@.contains(word@) {
                let seq = self.words@.map_values(|w: String| w@);
                let k = choose|k: int| 0 <= k < seq.len() && seq[k] == word@;
                assert(self.words@[k]@ == word@);
            }
        }
        false
    }

    /// Adds `word`; `true` when it was not in the set before.
    pub fn insert(&mut self, word: String) -> (r: bool)
        ensures
            r == !old(self)@.contains(word@),
            final(self)@ == old(self)@.insert(word@),
    {
        if self.contains(&word) {
            assert(self@.insert(word@) =~= self@);
            return false;
        }
        let ghost before = self.words@;
        self.words.push(word);
        proof {
            let seq0 = before.map_values(|w: String| w@);
            let seq1 = self.words@.map_values(|w: String| w@);
            assert(seq1 =~= seq0.push(word@));
            assert(seq1.to_set() =~= seq0.to_set().insert(word@)) by {
                assert forall|x: Seq<char>| seq1.to_set().contains(x) <==> seq0.to_set().insert(word@).contains(x) by {
                    if seq1.contains(x) && x != word@ {
                        let k = choose|k: int| 0 <= k < seq1.len() && seq1[k] == x;
                        assert(seq0[k] == x);
                    }
                    if seq0.contains(x) {
                        let k = choose|k: int| 0 <= k < seq0.len() && seq0[k] == x;
                        assert(seq1[k] == x);
                    }
                    if x == word@ {
                        assert(seq1[seq0.len() as int] == x);
                    }
                }
            }
        }
        true
    }

    /// The words listed in `content`, one per line: blank lines are skipped,
    /// each word is trimmed and lower-cased.
    pub fn from_word_list(content: &str) -> (r: WordSet)
        ensures
            r@ == word_list(content@).to_set(),
    {
        let chars = chars_of(content);
        let spans = line_spans(&chars);
        let mut set = WordSet::new();
        let ghost pieces = line_pieces(chars@);
        let mut k: usize = 0;
        assert(pieces.take(0) =~= Seq::<Seq<char>>::empty());
        assert(word_lines(pieces.take(0)).to_set() =~= Set::<Seq<char>>::empty());
        while k < spans.len()
            invariant
                chars@ == content@,
                pieces == line_pieces(chars@),
                spans@.len() == pieces.len(),
                forall|j: int|
                    0 <= j < spans@.len() ==> {
                        &&& (#[trigger] spans@[j]).0 <= spans@[j].1 <= chars@.len()
                        &&& chars@.subrange(spans@[j].0 as int, spans@[j].1 as int) == pieces[j]
                    },
                k <= spans@.len(),
                set@ == word_lines(pieces.take(k as int)).to_set(),
            decreases spans@.len() - k,
        {
            let span = spans[k];
            assert(span == spans@[k as int]);
            let (a, b) = trim_span(&chars, span.0, span.1);
            assert(pieces.take(k + 1).drop_last() =~= pieces.take(k as int));
            assert(pieces.take(k + 1).last() == pieces[k as int]);
            if a < b {
                let line = string_from_range(&chars, a, b);
                let word = to_lowercase(line.as_str());
                set.insert(word);
                proof {
                    let prev = word_lines(pieces.take(k as int));
                    assert(prev.push(word@).to_set() =~= prev.to_set().insert(word@)) by {
                        assert forall|x: Seq<char>| prev.push(word@).to_set().contains(x) <==> prev.to_set().insert(word@).contains(x) by {
                            let p1 = prev.push(word@);
                            if p1.contains(x) && x != word@ {
                                let i = choose|i: int| 0 <= i < p1.len() && p1[i] == x;
                                assert(prev[i] == x);
                            }
                            if prev.contains(x) {
                                let i = choose|i: int| 0 <= i < prev.len() && prev[i] == x;
                                assert(p1[i] == x);
                            }
                            if x == word@ {
                                assert(p1[prev.len() as int] == x);
                            }
                        }
                    }
                }
            }
            k = k + 1;
        }
        assert(pieces.take(spans@.len() as int) =~= pieces);
        set
    }
}

/// The maximal runs of non-white-space characters of `s`, in order
/// (`str::split_whitespace`).
pub open spec fn white_words(s: Seq<char>) -> Seq<Seq<char>>
    decreases s.len(),
{
    if s.len() == 0 {
        Seq::empty()
    } else if is_white_space(s.last()) {
        white_words(s.drop_last())
    } else {
        let prev = white_words(s.drop_last());
        if s.len() >= 2 && !is_white_space(s[s.len() - 2]) {
            prev.update(prev.len() - 1, prev.last().push(s.last()))
        } else {
            prev.push(seq![s.last()])
        }
    }
}

pub open spec fn is_ascii_digit(c: char) -> bool {
    '0' <= c <= '9'
}

/// Every character of `d` is an ASCII digit.
pub open spec fn all_ascii_digits(d: Seq<char>) -> bool {
    forall|i: int| 0 <= i < d.len() ==> is_ascii_digit(#[trigger] d[i])
}

/// `s` without one leading `+`.
pub open spec fn without_plus_sign(s: Seq<char>) -> Seq<char> {
    if s.len() > 0 && s[0] == '+' {
        s.drop_first()
    } else {
        s
    }
}

/// The decimal number spelled by the digits `d`.
pub open spec fn digits_value(d: Seq<char>) -> int
    decreases d.len(),
{
    if d.len() == 0 {
        0
    } else {
        digits_value(d.drop_last()) * 10 + (d.last() as int - '0' as int)
    }
}

/// `u8::from_str`: an optional `+` followed by one or more ASCII digits
/// whose value fits in a byte.
pub open spec fn parsed_u8(s: Seq<char>) -> Option<u8> {
    let d = without_plus_sign(s);
    if d.len() > 0 && all_ascii_digits(d) && digits_value(d) <= 255 {
        Some(digits_value(d) as u8)
    } else {
        None
    }
}

/// The `(id, name)` entry of one non-blank line of a `lexnames` file: its
/// first two white-space separated fields, the first read as a byte.
pub open spec fn lexname_entry(line: Seq<char>) -> Option<(u8, Seq<char>)> {
    let words = white_words(line);
    if words.len() >= 2 {
        match parsed_u8(words[0]) {
            Some(id) => Some((id, words[1])),
            None => None,
        }
    } else {
        None
    }
}

/// The table built from the lines of a `lexnames` file: each line with an
/// entry sets its id to its name, later lines overriding earlier ones.
pub open spec fn lexname_table(lines: Seq<Seq<char>>) -> Map<u8, Seq<char>>
    decreases lines.len(),
{
    if lines.len() == 0 {
        Map::empty()
    } else {
        let prev = lexname_table(lines.drop_last());
        let t = trim(lines.last());
        if t.len() == 0 {
            prev
        } else {
            match lexname_entry(t) {
                Some(entry) => prev.insert(entry.0, entry.1),
                None => prev,
            }
        }
    }
}

/// The character spans of the white-space separated words of
/// `chars[from..to]`.
pub fn white_word_spans(chars: &Vec<char>, from: usize, to: usize) -> (spans: Vec<(usize, usize)>)
    requires
        from <= to <= chars@.len(),
    ensures
        spans@.len() == white_words(chars@.subrange(from as int, to as int)).len(),
        forall|k: int|
            0 <= k < spans@.len() ==> {
                &&& from <= (#[trigger] spans@[k]).0 <= spans@[k].1 <= to
                &&& chars@.subrange(spans@[k].0 as int, spans@[k].1 as int) == white_words(
                    chars@.subrange(from as int, to as int),
                )[k]
            },
{
    let mut spans: Vec<(usize, usize)> = Vec::new();
    let mut in_word = false;
    let mut word_start: usize = from;
    let mut i: usize = from;
    assert(chars@.subrange(from as int, from as int) =~= Seq::<char>::empty());
    while i < to
        invariant
            from <= word_start <= i <= to <= chars@.len(),
            in_word ==> {
                &&& white_words(chars@.subrange(from as int, i as int)).len() == spans@.len() + 1
                &&& white_words(chars@.subrange(from as int, i as int)).last() == chars@.subrange(
                    word_start as int,
                    i as int,
                )
                &&& i > from
                &&& !is_white_space(chars@[i - 1])
            },
            !in_word ==> {
                &&& white_words(chars@.subrange(from as int, i as int)).len() == spans@.len()
                &&& (i == from || is_white_space(chars@[i - 1]))
            },
            forall|k: int|
                0 <= k < spans@.len() ==> {
                    &&& from <= (#[trigger] spans@[k]).0 <= spans@[k].1 <= i
                    &&& chars@.subrange(spans@[k].0 as int, spans@[k].1 as int) == white_words(
                        chars@.subrange(from as int, i as int),
                    )[k]
                },
        decreases to - i,
    {
        proof {
            let sub = chars@.subrange(from as int, i + 1);
            assert(sub.drop_last() =~= chars@.subrange(from as int, i as int));
            assert(sub.last() == chars@[i as int]);
            if sub.len() >= 2 {
                assert(sub[sub.len() - 2] == chars@[i - 1]);
            }
        }
        if char_is_whitespace(chars[i]) {
            if in_word {
                spans.push((word_start, i));
                in_word = false;
            }
        } else {
            if in_word {
                assert(chars@.subrange(word_start as int, i + 1) =~= chars@.subrange(word_start as int, i as int).push(chars@[i as int]));
            } else {
                word_start = i;
                in_word = true;
                assert(chars@.subrange(word_start as int, i + 1) =~= seq![chars@[i as int]]);
            }
        }
        i = i + 1;
    }
    if in_word {
        spans.push((word_start, to));
    }
    spans
}

pub proof fn lemma_digits_value_prefix(d: Seq<char>, k: int)
    requires
        0 <= k <= d.len(),
        forall|i: int| 0 <= i < d.len() ==> is_ascii_digit(#[trigger] d[i]),
    ensures
        digits_value(d.take(k)) <= digits_value(d),
        digits_value(d) >= 0,
    decreases d.len(),
{
    if d.len() > 0 {
        lemma_digits_value_prefix(d.drop_last(), if k < d.len() { k } else { 0 });
        assert(d.last() == d[d.len() - 1]);
        if k < d.len() {
            assert(d.drop_last().take(k) =~= d.take(k));
        } else {
            assert(d.take(k) =~= d);
        }
    } else {
        assert(d.take(k) =~= d);
    }
}

/// `u8::from_str` on `chars[from..to]`.
pub fn parse_u8(chars: &Vec<char>, from: usize, to: usize) -> (r: Option<u8>)
    requires
        from <= to <= chars@.len(),
    ensures
        r == parsed_u8(chars@.subrange(from as int, to as int)),
{
    let ghost s = chars@.subrange(from as int, to as int);
    let mut start = from;
    if start < to && chars[start] == '+' {
        start = start + 1;
    }
    let ghost d = chars@.subrange(start as int, to as int);
    assert(d == without_plus_sign(s));
    if start == to {
        return None;
    }
    let mut value: u32 = 0;
    let mut i = start;
    assert(d.take(0) =~= Seq::<char>::empty());
    while i < to
        invariant
            from <= start < to <= chars@.len(),
            start <= i <= to,
            d == chars@.subrange(start as int, to as int),
            s == chars@.subrange(from as int, to as int),
            d == without_plus_sign(s),
            forall|j: int| 0 <= j < i - start ==> is_ascii_digit(#[trigger] d[j]),
            value as int == digits_value(d.take(i - start)),
            value <= 255,
        decreases to - i,
    {
        let c = chars[i];
        assert(d[i - start] == c);
        if !('0' <= c && c <= '9') {
            assert(!is_ascii_digit(d[i - start]));
            return None;
        }
        let digit = (c as u32) - ('0' as u32);
        let next = value * 10 + digit;
        assert(d.take(i - start + 1).drop_last() =~= d.take(i - start));
        assert(d.take(i - start + 1).last() == c);
        assert(digits_value(d.take(i - start + 1)) == digits_value(d.take(i - start)) * 10 + (c as int - '0' as int));
        assert(next as int == digits_value(d.take(i - start + 1)));
        if next > 255 {
            proof {
                assert forall|j: int| 0 <= j < i - start + 1 implies is_ascii_digit(#[trigger] d[j]) by {
                    if j == i - start {
                        assert(d[j] == c);
                    }
                }
                if forall|j: int| 0 <= j < d.len() ==> is_ascii_digit(#[trigger] d[j]) {
                    lemma_digits_value_prefix(d, i - start + 1);
                }
            }
            return None;
        }
        value = next;
        i = i + 1;
    }
    assert(d.take(to - start) =~= d);
    Some(value as u8)
}

/// The `lexnames` entry of the trimmed, non-blank line `chars[from..to]`.
fn lexname_entry_in(chars: &Vec<char>, from: usize, to: usize) -> (r: Option<(u8, String)>)
    requires
        from <= to <= chars@.len(),
    ensures
        match lexname_entry(chars@.subrange(from as int, to as int)) {
            Some(entry) => r matches Some(e) && e.0 == entry.0 && e.1@ == entry.1,
            None => r is None,
        },
{
    let words = white_word_spans(chars, from, to);
    if words.len() < 2 {
        return None;
    }
    let first = words[0];
    let second = words[1];
    match parse_u8(chars, first.0, first.1) {
        Some(id) => Some((id, string_from_range(chars, second.0, second.1))),
        None => None,
    }
}

/// Reads the WordNet `lexnames` table: on each non-blank line, the first
/// field is the lexicographer file number and the second its name; lines
/// whose first field is not a byte-sized number are skipped.
pub fn parse_lexnames(content: &str) -> (table: HashMap<u8, String>)
    ensures
        table@.map_values(|name: String| name@) == lexname_table(line_pieces(content@)),
{
    broadcast use vstd::std_specs::hash::group_hash_axioms;
    let chars = chars_of(content);
    let spans = line_spans(&chars);
    let mut table: HashMap<u8, String> = HashMap::new();
    let ghost pieces = line_pieces(chars@);
    let mut k: usize = 0;
    assert(pieces.take(0) =~= Seq::<Seq<char>>::empty());
    assert(table@.map_values(|name: String| name@) =~= Map::<u8, Seq<char>>::empty());
    while k < spans.len()
        invariant
            chars@ == content@,
            pieces == line_pieces(chars@),
            spans@.len() == pieces.len(),
            forall|j: int|
                0 <= j < spans@.len() ==> {
                    &&& (#[trigger] spans@[j]).0 <= spans@[j].1 <= chars@.len()
                    &&& chars@.subrange(spans@[j].0 as int, spans@[j].1 as int) == pieces[j]
                },
            k <= spans@.len(),
            table@.map_values(|name: String| name@) == lexname_table(pieces.take(k as int)),
        decreases spans@.len() - k,
    {
        let span = spans[k];
        assert(span == spans@[k as int]);
        let (a, b) = trim_span(&chars, span.0, span.1);
        assert(pieces.take(k + 1).drop_last() =~= pieces.take(k as int));
        assert(pieces.take(k + 1).last() == pieces[k as int]);
        if a < b {
            match lexname_entry_in(&chars, a, b) {
                Some(entry) => {
                    let ghost before = table@;
                    let (id, name) = entry;
                    table.insert(id, name);
                    assert(table@.map_values(|name: String| name@) =~= before.map_values(
                        |name: String| name@,
                    ).insert(id, name@));
                },
                None => {},
            }
        }
        k = k + 1;
    }
    assert(pieces.take(spans@.len() as int) =~= pieces);
    table
}

} // verus!
