//! The extraction pipeline on tagger output: steps 1-6 (token filtering and
//! lemma normalisation), steps 7-8 (capitalisation heuristic and WordNet
//! gate) and steps 9-12 (lemma validation, stop words, known words,
//! first-occurrence deduplication with context).
use vstd::prelude::*;
use crate::text::{char_is_uppercase, chars_of, is_uppercase, lowercase_of, to_lowercase};
use crate::validate::{is_valid_word, valid_word};
use crate::context::{token_match, truncate_context, truncated_context};
use crate::wordlist::WordSet;
use crate::tokens::{
    coarse_label, coarse_pos, is_proper_lexname, is_proper_lexname_spec, is_proper_noun_label,
    map_to_wordnet_pos, optional_text, wordnet_pos_of, GatedToken, GatedTokenView, LemmatizedToken,
    LemmatizedTokenView, PreparedToken, PreparedTokenView, RawToken, TaggedToken, TaggedTokenView,
    RawTokenView, VocabularyEntry, VocabularyEntryView, WordnetPos,
};

verus! {

/// The lower-cased text of a sentence's first token, if it has one.
pub open spec fn sentence_start_word(tokens: Seq<RawTokenView>) -> Option<Seq<char>> {
    if tokens.len() > 0 {
        Some(lowercase_of(tokens[0].text))
    } else {
        None
    }
}

/// Steps 1-6 for one token: it needs a reading; proper-noun labels are
/// dropped; the lower-cased text must be a valid word; the lemma of the
/// primary reading is lower-cased.
pub open spec fn prepared_token(tok: RawTokenView, start: Option<Seq<char>>) -> Option<PreparedTokenView> {
    if tok.readings.len() == 0 {
        None
    } else {
        let label = coarse_label(tok.readings[0].pos);
        let lower = lowercase_of(tok.text);
        if is_proper_noun_label(label) || !valid_word(lower) {
            None
        } else {
            Some(
                PreparedTokenView {
                    original_token: tok.text,
                    lower_token: lower,
                    pos: label,
                    wordnet_pos: wordnet_pos_of(label),
                    lemma: lowercase_of(tok.readings[0].lemma),
                    was_capitalized: tok.text.len() > 0 && is_uppercase(tok.text[0]),
                    is_sentence_start: start == Some(lower),
                },
            )
        }
    }
}

/// The prepared tokens of a run of tokens, in order.
pub open spec fn prepared_run(tokens: Seq<RawTokenView>, start: Option<Seq<char>>) -> Seq<PreparedTokenView>
    decreases tokens.len(),
{
    if tokens.len() == 0 {
        Seq::empty()
    } else {
        let prev = prepared_run(tokens.drop_last(), start);
        match prepared_token(tokens.last(), start) {
            Some(p) => prev.push(p),
            None => prev,
        }
    }
}

/// The prepared tokens of a tagged text, sentence by sentence.
pub open spec fn prepared_sentences(sentences: Seq<Seq<RawTokenView>>) -> Seq<PreparedTokenView>
    decreases sentences.len(),
{
    if sentences.len() == 0 {
        Seq::empty()
    } else {
        let last = sentences.last();
        prepared_sentences(sentences.drop_last()) + prepared_run(last, sentence_start_word(last))
    }
}

/// The text of tagger output, sentence by sentence.
pub open spec fn raw_views(sentences: Seq<Vec<RawToken>>) -> Seq<Seq<RawTokenView>> {
    sentences.map_values(|v: Vec<RawToken>| v@.map_values(|t: RawToken| t@))
}

pub open spec fn prepared_views(v: Seq<PreparedToken>) -> Seq<PreparedTokenView> {
    v.map_values(|t: PreparedToken| t@)
}

/// Steps 1-6 for one token.
pub fn prepare_token(tok: &RawToken, start: &Option<String>) -> (r: Option<PreparedToken>)
    ensures
        match prepared_token(tok@, optional_text(*start)) {
            Some(p) => r matches Some(t) && t@ == p,
            None => r is None,
        },
{
    if tok.readings.len() == 0 {
        return None;
    }
    let primary = &tok.readings[0];
    let label = coarse_pos(primary.pos.as_str());
    if label == String::from_str("NNP") || label == String::from_str("NNPS") {
        return None;
    }
    let word_lower = to_lowercase(tok.text.as_str());
    if !is_valid_word(word_lower.as_str()) {
        return None;
    }
    let lemma = to_lowercase(primary.lemma.as_str());
    let text_chars = chars_of(tok.text.as_str());
    let was_capitalized = text_chars.len() > 0 && char_is_uppercase(text_chars[0]);
    let is_sentence_start = match start {
        Some(first) => *first == word_lower,
        None => false,
    };
    let wordnet_pos = map_to_wordnet_pos(label.as_str());
    Some(
        PreparedToken {
            original_token: tok.text.clone(),
            lower_token: word_lower,
            pos: label,
            wordnet_pos,
            lemma,
            was_capitalized,
            is_sentence_start,
        },
    )
}

/// Steps 1-6 on tagger output: keeps, in order, the tokens that have a
/// reading, are not tagged as proper nouns and whose lower-cased text is a
/// valid word, with their coarse label, WordNet part of speech, lower-cased
/// lemma, capitalisation and whether they repeat the sentence's first word.
pub fn prepare_tokens_from(sentences: &Vec<Vec<RawToken>>) -> (r: Vec<PreparedToken>)
    ensures
        prepared_views(r@) == prepared_sentences(raw_views(sentences@)),
{
    let ghost all = raw_views(sentences@);
    let mut out: Vec<PreparedToken> = Vec::new();
    let mut k: usize = 0;
    assert(all.take(0) =~= Seq::<Seq<RawTokenView>>::empty());
    assert(prepared_views(out@) =~= Seq::<PreparedTokenView>::empty());
    while k < sentences.len()
        invariant
            all == raw_views(sentences@),
            k <= sentences@.len(),
            prepared_views(out@) == prepared_sentences(all.take(k as int)),
        decreases sentences@.len() - k,
    {
        let tokens = &sentences[k];
        let ghost toks = all[k as int];
        assert(toks == tokens@.map_values(|t: RawToken| t@));
        let start: Option<String> = if tokens.len() > 0 {
            Some(to_lowercase(tokens[0].text.as_str()))
        } else {
            None
        };
        let ghost start_view = sentence_start_word(toks);
        assert(optional_text(start) == start_view);
        let ghost before = prepared_views(out@);
        let mut j: usize = 0;
        assert(toks.take(0) =~= Seq::<RawTokenView>::empty());
        assert(before + prepared_run(toks.take(0), start_view) =~= before);
        while j < tokens.len()
            invariant
                j <= tokens@.len(),
                toks == tokens@.map_values(|t: RawToken| t@),
                optional_text(start) == start_view,
                prepared_views(out@) == before + prepared_run(toks.take(j as int), start_view),
            decreases tokens@.len() - j,
        {
            let ghost out_before = out@;
            assert(toks.take(j + 1).drop_last() =~= toks.take(j as int));
            assert(toks.take(j + 1).last() == tokens@[j as int]@);
            match prepare_token(&tokens[j], &start) {
                Some(t) => {
                    out.push(t);
                    assert(prepared_views(out@) =~= prepared_views(out_before).push(t@));
                },
                None => {},
            }
            j = j + 1;
        }
        assert(toks.take(toks.len() as int) =~= toks);
        assert(all.take(k + 1).drop_last() =~= all.take(k as int));
        assert(all.take(k + 1).last() == toks);
        k = k + 1;
    }
    assert(all.take(all.len() as int) =~= all);
    out
}

/// The steps 1-4 record of a prepared token.
pub open spec fn tagged_view(t: PreparedTokenView) -> TaggedTokenView {
    TaggedTokenView { token: t.lower_token, pos: t.pos }
}

/// The steps 1-6 record of a prepared token.
pub open spec fn lemmatized_view(t: PreparedTokenView) -> LemmatizedTokenView {
    LemmatizedTokenView { token: t.lower_token, pos: t.pos, wordnet_pos: t.wordnet_pos, lemma: t.lemma }
}

/// The steps 1-4 records of prepared tokens, in order.
pub fn tagged_tokens(prepared: &Vec<PreparedToken>) -> (r: Vec<TaggedToken>)
    ensures
        r@.map_values(|t: TaggedToken| t@) == prepared_views(prepared@).map_values(
            |t: PreparedTokenView| tagged_view(t),
        ),
{
    let mut out: Vec<TaggedToken> = Vec::new();
    let mut i: usize = 0;
    while i < prepared.len()
        invariant
            i <= prepared@.len(),
            out@.len() == i,
            forall|k: int| 0 <= k < i ==> #[trigger] out@[k]@ == tagged_view(prepared@[k]@),
        decreases prepared@.len() - i,
    {
        let t = &prepared[i];
        out.push(TaggedToken { token: t.lower_token.clone(), pos: t.pos.clone() });
        i = i + 1;
    }
    assert(out@.map_values(|t: TaggedToken| t@) =~= prepared_views(prepared@).map_values(
        |t: PreparedTokenView| tagged_view(t),
    ));
    out
}

/// The steps 1-6 records of prepared tokens, in order.
pub fn lemmatized_tokens(prepared: &Vec<PreparedToken>) -> (r: Vec<LemmatizedToken>)
    ensures
        r@.map_values(|t: LemmatizedToken| t@) == prepared_views(prepared@).map_values(
            |t: PreparedTokenView| lemmatized_view(t),
        ),
{
    let mut out: Vec<LemmatizedToken> = Vec::new();
    let mut i: usize = 0;
    while i < prepared.len()
        invariant
            i <= prepared@.len(),
            out@.len() == i,
            forall|k: int| 0 <= k < i ==> #[trigger] out@[k]@ == lemmatized_view(prepared@[k]@),
        decreases prepared@.len() - i,
    {
        let t = &prepared[i];
        out.push(
            LemmatizedToken {
                token: t.lower_token.clone(),
                pos: t.pos.clone(),
                wordnet_pos: t.wordnet_pos,
                lemma: t.lemma.clone(),
            },
        );
        i = i + 1;
    }
    assert(out@.map_values(|t: LemmatizedToken| t@) =~= prepared_views(prepared@).map_values(
        |t: PreparedTokenView| lemmatized_view(t),
    ));
    out
}

/// Steps 7-8 for one prepared token, given the lexicographer file that the
/// WordNet lookup of its lemma found (consulted for capitalised tokens
/// only): a capitalised token that does not start its sentence is dropped
/// (proper-adjective heuristic); a capitalised sentence-initial token is
/// dropped when its lexicographer file is a proper-name one.
pub open spec fn gated(t: PreparedTokenView, lexname: Option<Seq<char>>) -> Option<GatedTokenView> {
    if t.was_capitalized && !t.is_sentence_start {
        None
    } else if t.was_capitalized {
        if lexname matches Some(name) && is_proper_lexname_spec(name) {
            None
        } else {
            Some(
                GatedTokenView {
                    token: t.lower_token,
                    pos: t.pos,
                    wordnet_pos: t.wordnet_pos,
                    lemma: t.lemma,
                    original_token: t.original_token,
                    was_capitalized: true,
                    wordnet_gate_checked: true,
                    wordnet_lexname: lexname,
                },
            )
        }
    } else {
        Some(
            GatedTokenView {
                token: t.lower_token,
                pos: t.pos,
                wordnet_pos: t.wordnet_pos,
                lemma: t.lemma,
                original_token: t.original_token,
                was_capitalized: false,
                wordnet_gate_checked: false,
                wordnet_lexname: None,
            },
        )
    }
}

pub open spec fn gated_view(g: Option<GatedToken>) -> Option<GatedTokenView> {
    match g {
        Some(t) => Some(t@),
        None => None,
    }
}

/// Steps 7-8 for one prepared token, with `lexname` the lexicographer file
/// found for its lemma (`None` when WordNet has none).
pub fn gate_token(token: &PreparedToken, lexname: Option<String>) -> (r: Option<GatedToken>)
    ensures
        gated_view(r) == gated(token@, optional_text(lexname)),
{
    if token.was_capitalized && !token.is_sentence_start {
        return None;
    }
    let mut wordnet_gate_checked = false;
    let mut wordnet_lexname: Option<String> = None;
    if token.was_capitalized {
        wordnet_gate_checked = true;
        match lexname {
            Some(name) => {
                if is_proper_lexname(&name) {
                    return None;
                }
                wordnet_lexname = Some(name);
            },
            None => {},
        }
    }
    Some(
        GatedToken {
            token: token.lower_token.clone(),
            pos: token.pos.clone(),
            wordnet_pos: token.wordnet_pos,
            lemma: token.lemma.clone(),
            original_token: token.original_token.clone(),
            was_capitalized: token.was_capitalized,
            wordnet_gate_checked,
            wordnet_lexname,
        },
    )
}

/// Maximum length, in characters, of an entry's context.
pub const CONTEXT_MAX_CHARS: usize = 150;

/// A gated lemma passes steps 9-11: it is a valid word, not a stop word and
/// not a known word.
pub open spec fn passes_word_filters(lemma: Seq<char>, stop_words: Set<Seq<char>>, known_words: Set<Seq<char>>) -> bool {
    valid_word(lemma) && !stop_words.contains(lemma) && !known_words.contains(lemma)
}

/// The entry made from a gated token of sentence `s`.
pub open spec fn entry_for(s: Seq<char>, g: GatedTokenView) -> VocabularyEntryView {
    VocabularyEntryView {
        lemma: g.lemma,
        context: truncated_context(
            s,
            g.original_token,
            CONTEXT_MAX_CHARS as int,
            token_match(s, g.original_token),
            true,
        ),
        original_token: g.original_token,
        wordnet_pos: g.wordnet_pos,
    }
}

/// Whether some entry of `entries` has lemma `lemma`.
pub open spec fn has_lemma(entries: Seq<VocabularyEntryView>, lemma: Seq<char>) -> bool {
    exists|k: int| 0 <= k < entries.len() && #[trigger] entries[k].lemma == lemma
}

/// Steps 9-12 over gated candidates, each paired with the index of its
/// sentence: a candidate whose lemma passes the word filters and was not
/// taken before becomes an entry, with its sentence cut around it.
pub open spec fn vocabulary(
    sentences: Seq<Seq<char>>,
    candidates: Seq<(nat, GatedTokenView)>,
    stop_words: Set<Seq<char>>,
    known_words: Set<Seq<char>>,
) -> Seq<VocabularyEntryView>
    decreases candidates.len(),
{
    if candidates.len() == 0 {
        Seq::empty()
    } else {
        let prev = vocabulary(sentences, candidates.drop_last(), stop_words, known_words);
        let c = candidates.last();
        if passes_word_filters(c.1.lemma, stop_words, known_words) && !has_lemma(prev, c.1.lemma) {
            prev.push(entry_for(sentences[c.0 as int], c.1))
        } else {
            prev
        }
    }
}

pub open spec fn candidate_views(candidates: Seq<(usize, GatedToken)>) -> Seq<(nat, GatedTokenView)> {
    candidates.map_values(|c: (usize, GatedToken)| (c.0 as nat, c.1@))
}

pub open spec fn sentence_views(sentences: Seq<String>) -> Seq<Seq<char>> {
    sentences.map_values(|s: String| s@)
}

pub open spec fn entry_views(entries: Seq<VocabularyEntry>) -> Seq<VocabularyEntryView> {
    entries.map_values(|e: VocabularyEntry| e@)
}

/// Steps 9-12: turns gated candidates (each with the index of its sentence)
/// into vocabulary entries, keeping the first occurrence of each lemma that
/// is a valid word and neither a stop word nor a known word, with its
/// sentence cut to at most 150 characters around the original token.
pub fn collect_vocabulary(
    sentences: &[String],
    candidates: &Vec<(usize, GatedToken)>,
    stop_words: &WordSet,
    known_words: &WordSet,
) -> (r: Vec<VocabularyEntry>)
    requires
        forall|k: int| 0 <= k < candidates@.len() ==> (#[trigger] candidates@[k]).0 < sentences@.len(),
    ensures
        entry_views(r@) == vocabulary(
            sentence_views(sentences@),
            candidate_views(candidates@),
            stop_words@,
            known_words@,
        ),
{
    let ghost sents = sentence_views(sentences@);
    let ghost cands = candidate_views(candidates@);
    let mut out: Vec<VocabularyEntry> = Vec::new();
    let mut seen = WordSet::new();
    let mut k: usize = 0;
    assert(cands.take(0) =~= Seq::<(nat, GatedTokenView)>::empty());
    assert(entry_views(out@) =~= Seq::<VocabularyEntryView>::empty());
    while k < candidates.len()
        invariant
            sents == sentence_views(sentences@),
            cands == candidate_views(candidates@),
            forall|j: int| 0 <= j < candidates@.len() ==> (#[trigger] candidates@[j]).0 < sentences@.len(),
            k <= candidates@.len(),
            entry_views(out@) == vocabulary(sents, cands.take(k as int), stop_words@, known_words@),
            forall|x: Seq<char>| seen@.contains(x) <==> has_lemma(entry_views(out@), x),
        decreases candidates@.len() - k,
    {
        let (index, gated) = (&candidates[k].0, &candidates[k].1);
        let ghost prev = entry_views(out@);
        assert(cands.take(k + 1).drop_last() =~= cands.take(k as int));
        assert(cands.take(k + 1).last() == (*index as nat, gated@));
        if is_valid_word(gated.lemma.as_str()) && !stop_words.contains(&gated.lemma)
            && !known_words.contains(&gated.lemma) && seen.insert(gated.lemma.clone()) {
            let sentence = &sentences[*index];
            let context = truncate_context(sentence.as_str(), gated.original_token.as_str(), CONTEXT_MAX_CHARS);
            let entry = VocabularyEntry {
                lemma: gated.lemma.clone(),
                context,
                original_token: gated.original_token.clone(),
                wordnet_pos: gated.wordnet_pos,
            };
            let ghost out_before = out@;
            out.push(entry);
            proof {
                assert(entry_views(out@) =~= prev.push(entry@));
                assert(sents[*index as int] == sentence@);
                assert forall|x: Seq<char>| seen@.contains(x) <==> has_lemma(entry_views(out@), x) by {
                    let e = entry_views(out@);
                    if has_lemma(prev, x) {
                        let j = choose|j: int| 0 <= j < prev.len() && #[trigger] prev[j].lemma == x;
                        assert(e[j].lemma == x);
                    }
                    if x == gated@.lemma {
                        assert(e[prev.len() as int].lemma == x);
                    }
                    if has_lemma(e, x) {
                        let j = choose|j: int| 0 <= j < e.len() && #[trigger] e[j].lemma == x;
                        if j < prev.len() {
                            assert(prev[j].lemma == x);
                        }
                    }
                }
            }
        }
        k = k + 1;
    }
    assert(cands.take(candidates@.len() as int) =~= cands);
    out
}

/// The entry for `lemma` comes from the first candidate with that lemma.
pub open spec fn first_candidate_for(
    candidates: Seq<(nat, GatedTokenView)>,
    lemma: Seq<char>,
    j: int,
) -> bool {
    &&& 0 <= j < candidates.len()
    &&& candidates[j].1.lemma == lemma
    &&& forall|k: int| 0 <= k < j ==> (#[trigger] candidates[k]).1.lemma != lemma
}

/// Steps 9-12 keep one entry per lemma; every entry's lemma passes the word
/// filters and the entry is built from the first candidate with that lemma
/// (first-occurrence retention, with that candidate's sentence as context);
/// and every candidate whose lemma passes the filters is represented.
pub proof fn lemma_vocabulary_laws(
    sentences: Seq<Seq<char>>,
    candidates: Seq<(nat, GatedTokenView)>,
    stop_words: Set<Seq<char>>,
    known_words: Set<Seq<char>>,
)
    ensures
        ({
            let v = vocabulary(sentences, candidates, stop_words, known_words);
            &&& forall|i: int, j: int| 0 <= i < j < v.len() ==> (#[trigger] v[i]).lemma != (#[trigger] v[j]).lemma
            &&& forall|i: int|
                0 <= i < v.len() ==> passes_word_filters(
                    (#[trigger] v[i]).lemma,
                    stop_words,
                    known_words,
                ) && exists|j: int|
                    first_candidate_for(candidates, v[i].lemma, j) && v[i] == entry_for(
                        sentences[candidates[j].0 as int],
                        candidates[j].1,
                    )
            &&& forall|j: int|
                0 <= j < candidates.len() && passes_word_filters(
                    (#[trigger] candidates[j]).1.lemma,
                    stop_words,
                    known_words,
                ) ==> has_lemma(v, candidates[j].1.lemma)
        }),
    decreases candidates.len(),
{
    let v = vocabulary(sentences, candidates, stop_words, known_words);
    if candidates.len() > 0 {
        let rest = candidates.drop_last();
        let prev = vocabulary(sentences, rest, stop_words, known_words);
        lemma_vocabulary_laws(sentences, rest, stop_words, known_words);
        let n = candidates.len() - 1;
        let c = candidates.last();
        assert forall|k: int| 0 <= k < n implies #[trigger] rest[k] == candidates[k] by {}
        if passes_word_filters(c.1.lemma, stop_words, known_words) && !has_lemma(prev, c.1.lemma) {
            assert(v == prev.push(entry_for(sentences[c.0 as int], c.1)));
            assert forall|i: int, j: int| 0 <= i < j < v.len() implies (#[trigger] v[i]).lemma != (
            #[trigger] v[j]).lemma by {
                if j == prev.len() {
                    assert(prev[i].lemma == v[i].lemma);
                } else {
                    assert(prev[i] == v[i] && prev[j] == v[j]);
                }
            }
            assert forall|i: int| 0 <= i < v.len() implies passes_word_filters(
                (#[trigger] v[i]).lemma,
                stop_words,
                known_words,
            ) && exists|j: int|
                first_candidate_for(candidates, v[i].lemma, j) && v[i] == entry_for(
                    sentences[candidates[j].0 as int],
                    candidates[j].1,
                ) by {
                if i == prev.len() {
                    assert forall|k: int| 0 <= k < n implies (#[trigger] candidates[k]).1.lemma
                        != c.1.lemma by {
                        if candidates[k].1.lemma == c.1.lemma {
                            assert(rest[k] == candidates[k]);
                            assert(has_lemma(prev, rest[k].1.lemma));
                        }
                    }
                    assert(first_candidate_for(candidates, v[i].lemma, n));
                } else {
                    assert(prev[i] == v[i]);
                    let j = choose|j: int|
                        first_candidate_for(rest, prev[i].lemma, j) && prev[i] == entry_for(
                            sentences[rest[j].0 as int],
                            rest[j].1,
                        );
                    assert(rest[j] == candidates[j]);
                    assert forall|k: int| 0 <= k < j implies (#[trigger] candidates[k]).1.lemma
                        != v[i].lemma by {
                        assert(rest[k] == candidates[k]);
                    }
                    assert(first_candidate_for(candidates, v[i].lemma, j));
                }
            }
            assert forall|j: int|
                0 <= j < candidates.len() && passes_word_filters(
                    (#[trigger] candidates[j]).1.lemma,
                    stop_words,
                    known_words,
                ) implies has_lemma(v, candidates[j].1.lemma) by {
                if j == n {
                    assert(v[prev.len() as int].lemma == c.1.lemma);
                } else {
                    assert(rest[j] == candidates[j]);
                    assert(has_lemma(prev, rest[j].1.lemma));
                    let k = choose|k: int| 0 <= k < prev.len() && #[trigger] prev[k].lemma == rest[j].1.lemma;
                    assert(v[k] == prev[k]);
                }
            }
        } else {
            assert(v == prev);
            assert forall|i: int| 0 <= i < v.len() implies passes_word_filters(
                (#[trigger] v[i]).lemma,
                stop_words,
                known_words,
            ) && exists|j: int|
                first_candidate_for(candidates, v[i].lemma, j) && v[i] == entry_for(
                    sentences[candidates[j].0 as int],
                    candidates[j].1,
                ) by {
                let j = choose|j: int|
                    first_candidate_for(rest, prev[i].lemma, j) && prev[i] == entry_for(
                        sentences[rest[j].0 as int],
                        rest[j].1,
                    );
                assert(rest[j] == candidates[j]);
                assert forall|k: int| 0 <= k < j implies (#[trigger] candidates[k]).1.lemma
                    != v[i].lemma by {
                    assert(rest[k] == candidates[k]);
                }
                assert(first_candidate_for(candidates, v[i].lemma, j));
            }
            assert forall|j: int|
                0 <= j < candidates.len() && passes_word_filters(
                    (#[trigger] candidates[j]).1.lemma,
                    stop_words,
                    known_words,
                ) implies has_lemma(v, candidates[j].1.lemma) by {
                if j < n {
                    assert(rest[j] == candidates[j]);
                }
            }
        }
    }
}

/// Steps 9-12 keep the order of first occurrence: of two entries, the
/// earlier one comes from the earlier first candidate.
pub proof fn lemma_vocabulary_order(
    sentences: Seq<Seq<char>>,
    candidates: Seq<(nat, GatedTokenView)>,
    stop_words: Set<Seq<char>>,
    known_words: Set<Seq<char>>,
    i: int,
    i2: int,
    j: int,
    j2: int,
)
    requires
        0 <= i < i2 < vocabulary(sentences, candidates, stop_words, known_words).len(),
        first_candidate_for(candidates, vocabulary(sentences, candidates, stop_words, known_words)[i].lemma, j),
        first_candidate_for(candidates, vocabulary(sentences, candidates, stop_words, known_words)[i2].lemma, j2),
    ensures
        j < j2,
    decreases candidates.len(),
{
    let v = vocabulary(sentences, candidates, stop_words, known_words);
    let n = candidates.len() - 1;
    let rest = candidates.drop_last();
    let prev = vocabulary(sentences, rest, stop_words, known_words);
    let c = candidates.last();
    lemma_vocabulary_laws(sentences, candidates, stop_words, known_words);
    lemma_vocabulary_laws(sentences, rest, stop_words, known_words);
    assert forall|k: int| 0 <= k < n implies #[trigger] rest[k] == candidates[k] by {}
    let pushed = passes_word_filters(c.1.lemma, stop_words, known_words) && !has_lemma(prev, c.1.lemma);
    if pushed && i2 == prev.len() {
        assert(v == prev.push(entry_for(sentences[c.0 as int], c.1)));
        assert(v[i2].lemma == c.1.lemma);
        if j2 < n {
            assert(rest[j2] == candidates[j2]);
            assert(has_lemma(prev, rest[j2].1.lemma));
        }
        assert(v[i].lemma != v[i2].lemma);
    } else {
        if pushed {
            assert(v == prev.push(entry_for(sentences[c.0 as int], c.1)));
        } else {
            assert(v == prev);
        }
        assert(v[i] == prev[i] && v[i2] == prev[i2]);
        let ja = choose|ja: int|
            first_candidate_for(rest, prev[i].lemma, ja) && prev[i] == entry_for(
                sentences[rest[ja].0 as int],
                rest[ja].1,
            );
        let jb = choose|jb: int|
            first_candidate_for(rest, prev[i2].lemma, jb) && prev[i2] == entry_for(
                sentences[rest[jb].0 as int],
                rest[jb].1,
            );
        assert(rest[ja] == candidates[ja] && rest[jb] == candidates[jb]);
        assert(j <= ja);
        assert(j2 <= jb);
        assert(first_candidate_for(rest, prev[i].lemma, j)) by {
            assert(rest[j] == candidates[j]);
            assert forall|k: int| 0 <= k < j implies (#[trigger] rest[k]).1.lemma != prev[i].lemma by {
                assert(rest[k] == candidates[k]);
            }
        }
        assert(first_candidate_for(rest, prev[i2].lemma, j2)) by {
            assert(rest[j2] == candidates[j2]);
            assert forall|k: int| 0 <= k < j2 implies (#[trigger] rest[k]).1.lemma != prev[i2].lemma by {
                assert(rest[k] == candidates[k]);
            }
        }
        lemma_vocabulary_order(sentences, rest, stop_words, known_words, i, i2, j, j2);
    }
}

/// What every prepared token satisfies: its lower-cased text is a valid
/// word, it is not tagged as a proper noun, and its WordNet part of speech
/// is the one its label maps to.
pub open spec fn prepared_ok(p: PreparedTokenView) -> bool {
    &&& valid_word(p.lower_token)
    &&& !is_proper_noun_label(p.pos)
    &&& p.wordnet_pos == wordnet_pos_of(p.pos)
    &&& p.lower_token == lowercase_of(p.original_token)
}

proof fn lemma_prepared_run_ok(tokens: Seq<RawTokenView>, start: Option<Seq<char>>)
    ensures
        forall|i: int| 0 <= i < prepared_run(tokens, start).len() ==> prepared_ok(
            #[trigger] prepared_run(tokens, start)[i],
        ),
    decreases tokens.len(),
{
    if tokens.len() > 0 {
        lemma_prepared_run_ok(tokens.drop_last(), start);
        let prev = prepared_run(tokens.drop_last(), start);
        if let Some(p) = prepared_token(tokens.last(), start) {
            assert(prepared_ok(p));
            assert forall|i: int| 0 <= i < prev.push(p).len() implies prepared_ok(
                #[trigger] prev.push(p)[i],
            ) by {
                if i < prev.len() {
                    assert(prev.push(p)[i] == prev[i]);
                }
            }
        }
    }
}

/// Steps 1-6 keep only valid, non-proper-noun words with consistent labels.
pub proof fn lemma_prepared_ok(tagged: Seq<Seq<RawTokenView>>)
    ensures
        forall|i: int| 0 <= i < prepared_sentences(tagged).len() ==> prepared_ok(
            #[trigger] prepared_sentences(tagged)[i],
        ),
    decreases tagged.len(),
{
    if tagged.len() > 0 {
        lemma_prepared_ok(tagged.drop_last());
        let last = tagged.last();
        lemma_prepared_run_ok(last, sentence_start_word(last));
        let a = prepared_sentences(tagged.drop_last());
        let b = prepared_run(last, sentence_start_word(last));
        assert forall|i: int| 0 <= i < prepared_sentences(tagged).len() implies prepared_ok(
            #[trigger] prepared_sentences(tagged)[i],
        ) by {
            if i < a.len() {
                assert(prepared_sentences(tagged)[i] == a[i]);
            } else {
                assert(prepared_sentences(tagged)[i] == b[i - a.len()]);
            }
        }
    }
}

/// What steps 7-8 let through: a capitalised token was checked against
/// WordNet and its lexicographer file is not a proper-name one; any other
/// token was not checked and carries no lexicographer file.
pub open spec fn gated_ok(g: GatedTokenView) -> bool {
    &&& g.was_capitalized ==> g.wordnet_gate_checked && !(g.wordnet_lexname matches Some(name)
        && is_proper_lexname_spec(name))
    &&& !g.was_capitalized ==> !g.wordnet_gate_checked && g.wordnet_lexname is None
}

/// Steps 7-8 keep the token's text, label and lemma, and lets through only
/// tokens that satisfy `gated_ok`; a capitalised token passes only at the
/// start of its sentence.
pub proof fn lemma_gated_ok(t: PreparedTokenView, lexname: Option<Seq<char>>)
    ensures
        gated(t, lexname) matches Some(g) ==> {
            &&& gated_ok(g)
            &&& g.token == t.lower_token
            &&& g.pos == t.pos
            &&& g.lemma == t.lemma
            &&& g.original_token == t.original_token
            &&& g.wordnet_pos == t.wordnet_pos
            &&& g.was_capitalized == t.was_capitalized
            &&& t.was_capitalized ==> t.is_sentence_start
        },
{
}

} // verus!
