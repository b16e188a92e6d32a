//! Laws relating the engine's steps to one another and articles to their
//! parts.
use vstd::prelude::*;
use crate::engine::{lemma_article_candidates_in_range, LexiFlashNlp};
use crate::pipeline::{
    entry_for, gated, has_lemma, lemma_gated_ok, lemmatized_view, passes_word_filters,
    vocabulary,
};
use crate::context::{case_insensitive_literal, first_whole_word, token_match, TOKEN_REGEX_SIZE_LIMIT};
use crate::engine::{first_synset_of, synsets_under, SynsetRef};
use crate::pattern::{regex_match_outcome, regex_match_spans_limited, spans_on_char_offsets};
use crate::pipeline::{prepared_token, sentence_start_word};
use crate::text::{char_index_at, is_alphabetic, lowercase_of};
use crate::tokens::{coarse_label, RawTokenView, TagReadingView, WordnetPos};
use crate::validate::{letters_only_pattern, valid_word};
use crate::wordlist::{line_pieces, trim, word_lines, word_list};
use crate::tokens::{
    GatedTokenView, LemmatizedTokenView, PreparedTokenView, TaggedTokenView, VocabularyEntryView,
};

verus! {

/// Steps 5-6 only add fields: dropping them from the steps 1-6 result gives
/// the steps 1-4 result, token for token.
pub proof fn law_steps_1_6_extend_steps_1_4(nlp: &LexiFlashNlp, text: Seq<char>)
    ensures
        nlp.steps_1_6_of(text).map_values(
            |l: LemmatizedTokenView| TaggedTokenView { token: l.token, pos: l.pos },
        ) == nlp.steps_1_4_of(text),
{
    assert(nlp.steps_1_6_of(text).map_values(
        |l: LemmatizedTokenView| TaggedTokenView { token: l.token, pos: l.pos },
    ) =~= nlp.steps_1_4_of(text));
}

/// The steps 1-6 fields of a gated token.
pub open spec fn lemmatized_part(g: GatedTokenView) -> LemmatizedTokenView {
    LemmatizedTokenView { token: g.token, pos: g.pos, wordnet_pos: g.wordnet_pos, lemma: g.lemma }
}

/// `idx` places each element of `sub` at a strictly increasing position of
/// `full` holding an equal element.
pub open spec fn embeds_in(sub: Seq<LemmatizedTokenView>, full: Seq<LemmatizedTokenView>, idx: Seq<int>) -> bool {
    &&& idx.len() == sub.len()
    &&& forall|k: int| 0 <= k < idx.len() ==> 0 <= #[trigger] idx[k] < full.len() && full[idx[k]] == sub[k]
    &&& forall|k: int, l: int| 0 <= k < l < idx.len() ==> #[trigger] idx[k] < #[trigger] idx[l]
}

/// `sub` is a subsequence of `full`.
pub open spec fn is_subsequence(sub: Seq<LemmatizedTokenView>, full: Seq<LemmatizedTokenView>) -> bool {
    exists|idx: Seq<int>| embeds_in(sub, full, idx)
}

proof fn gate_seq_embedding(nlp: &LexiFlashNlp, p: Seq<PreparedTokenView>) -> (idx: Seq<int>)
    ensures
        embeds_in(
            nlp.gate_seq(p).map_values(|g: GatedTokenView| lemmatized_part(g)),
            p.map_values(|t: PreparedTokenView| lemmatized_view(t)),
            idx,
        ),
    decreases p.len(),
{
    if p.len() == 0 {
        Seq::empty()
    } else {
        let rest = p.drop_last();
        let prev = gate_seq_embedding(nlp, rest);
        let full = p.map_values(|t: PreparedTokenView| lemmatized_view(t));
        let full_rest = rest.map_values(|t: PreparedTokenView| lemmatized_view(t));
        assert forall|k: int| 0 <= k < full_rest.len() implies #[trigger] full_rest[k] == full[k] by {
            assert(rest[k] == p[k]);
        }
        let sub_rest = nlp.gate_seq(rest).map_values(|g: GatedTokenView| lemmatized_part(g));
        let t = p.last();
        lemma_gated_ok(t, nlp.lemma_lexname(t.lemma));
        match gated(t, nlp.lemma_lexname(t.lemma)) {
            Some(g) => {
                let idx = prev.push(p.len() - 1);
                let sub = nlp.gate_seq(p).map_values(|g: GatedTokenView| lemmatized_part(g));
                assert(sub =~= sub_rest.push(lemmatized_part(g)));
                assert(full[p.len() - 1] == lemmatized_view(t));
                assert forall|k: int| 0 <= k < idx.len() implies 0 <= #[trigger] idx[k] < full.len()
                    && full[idx[k]] == sub[k] by {
                    if k < prev.len() {
                        assert(idx[k] == prev[k]);
                        assert(full_rest[prev[k]] == full[prev[k]]);
                    }
                }
                assert forall|k: int, l: int| 0 <= k < l < idx.len() implies #[trigger] idx[k]
                    < #[trigger] idx[l] by {
                    if l == prev.len() {
                        assert(idx[k] == prev[k]);
                        assert(prev[k] < full_rest.len());
                    } else {
                        assert(idx[k] == prev[k] && idx[l] == prev[l]);
                    }
                }
                idx
            },
            None => {
                let sub = nlp.gate_seq(p).map_values(|g: GatedTokenView| lemmatized_part(g));
                assert(sub =~= sub_rest);
                assert forall|k: int| 0 <= k < prev.len() implies 0 <= #[trigger] prev[k] < full.len()
                    && full[prev[k]] == sub[k] by {
                    assert(full_rest[prev[k]] == full[prev[k]]);
                }
                prev
            },
        }
    }
}

/// Steps 7-8 only drop tokens: the steps 1-8 result, cut back to the steps
/// 1-6 fields, is a subsequence of the steps 1-6 result.
pub proof fn law_steps_1_8_subsequence_of_steps_1_6(nlp: &LexiFlashNlp, text: Seq<char>)
    ensures
        is_subsequence(
            nlp.steps_1_8_of(text).map_values(|g: GatedTokenView| lemmatized_part(g)),
            nlp.steps_1_6_of(text),
        ),
{
    let idx = gate_seq_embedding(nlp, nlp.prepared_of(text));
    assert(embeds_in(
        nlp.steps_1_8_of(text).map_values(|g: GatedTokenView| lemmatized_part(g)),
        nlp.steps_1_6_of(text),
        idx,
    ));
}

/// The entries of `v` whose lemma no entry of `taken` has, in order.
pub open spec fn new_lemmas(v: Seq<VocabularyEntryView>, taken: Seq<VocabularyEntryView>) -> Seq<VocabularyEntryView>
    decreases v.len(),
{
    if v.len() == 0 {
        Seq::empty()
    } else {
        let prev = new_lemmas(v.drop_last(), taken);
        if has_lemma(taken, v.last().lemma) {
            prev
        } else {
            prev.push(v.last())
        }
    }
}

/// Candidates with their sentence indices moved up by `off`.
pub open spec fn shifted(c: Seq<(nat, GatedTokenView)>, off: nat) -> Seq<(nat, GatedTokenView)> {
    c.map_values(|x: (nat, GatedTokenView)| (x.0 + off, x.1))
}

proof fn lemma_candidates_concat(nlp: &LexiFlashNlp, a: Seq<Seq<char>>, b: Seq<Seq<char>>)
    ensures
        nlp.article_candidates(a + b) == nlp.article_candidates(a) + shifted(
            nlp.article_candidates(b),
            a.len(),
        ),
    decreases b.len(),
{
    if b.len() == 0 {
        assert(a + b =~= a);
        assert(nlp.article_candidates(a) + shifted(nlp.article_candidates(b), a.len())
            =~= nlp.article_candidates(a));
    } else {
        let b1 = b.drop_last();
        lemma_candidates_concat(nlp, a, b1);
        assert((a + b).drop_last() =~= a + b1);
        assert((a + b).last() == b.last());
        let s8 = nlp.steps_1_8_of(b.last());
        let m1 = s8.map_values(|g: GatedTokenView| (((a + b).len() - 1) as nat, g));
        let m2 = s8.map_values(|g: GatedTokenView| ((b.len() - 1) as nat, g));
        let cb1 = nlp.article_candidates(b1);
        assert(nlp.article_candidates(b) == cb1 + m2);
        assert(shifted(cb1 + m2, a.len()) =~= shifted(cb1, a.len()) + shifted(m2, a.len()));
        assert(shifted(m2, a.len()) =~= m1);
        assert(nlp.article_candidates(a + b) == nlp.article_candidates(a + b1) + m1);
        assert(nlp.article_candidates(a) + shifted(cb1, a.len()) + m1 =~= nlp.article_candidates(a)
            + (shifted(cb1, a.len()) + m1));
    }
}

proof fn lemma_has_lemma_new_lemmas(x: Seq<VocabularyEntryView>, y: Seq<VocabularyEntryView>, l: Seq<char>)
    ensures
        has_lemma(x + new_lemmas(y, x), l) <==> (has_lemma(x, l) || has_lemma(y, l)),
    decreases y.len(),
{
    let z = x + new_lemmas(y, x);
    if y.len() == 0 {
        assert(z =~= x);
    } else {
        let y1 = y.drop_last();
        lemma_has_lemma_new_lemmas(x, y1, l);
        let z1 = x + new_lemmas(y1, x);
        if has_lemma(y, l) {
            let k = choose|k: int| 0 <= k < y.len() && #[trigger] y[k].lemma == l;
            if k < y1.len() {
                assert(y1[k].lemma == l);
            }
        }
        if has_lemma(y1, l) {
            let k = choose|k: int| 0 <= k < y1.len() && #[trigger] y1[k].lemma == l;
            assert(y[k].lemma == l);
        }
        if has_lemma(x, y.last().lemma) {
            assert(z == z1);
            if y.last().lemma == l && !has_lemma(y1, l) {
                assert(has_lemma(x, l));
            }
        } else {
            assert(z =~= z1.push(y.last()));
            if has_lemma(z1, l) {
                let k = choose|k: int| 0 <= k < z1.len() && #[trigger] z1[k].lemma == l;
                assert(z[k].lemma == l);
            }
            if has_lemma(z, l) {
                let k = choose|k: int| 0 <= k < z.len() && #[trigger] z[k].lemma == l;
                if k < z1.len() {
                    assert(z1[k].lemma == l);
                }
            }
            if y.last().lemma == l {
                assert(z[z1.len() as int].lemma == l);
            }
        }
    }
}

proof fn lemma_vocabulary_concat(
    sentences: Seq<Seq<char>>,
    c1: Seq<(nat, GatedTokenView)>,
    c2: Seq<(nat, GatedTokenView)>,
    stop_words: Set<Seq<char>>,
    known_words: Set<Seq<char>>,
)
    ensures
        vocabulary(sentences, c1 + c2, stop_words, known_words) == vocabulary(
            sentences,
            c1,
            stop_words,
            known_words,
        ) + new_lemmas(
            vocabulary(sentences, c2, stop_words, known_words),
            vocabulary(sentences, c1, stop_words, known_words),
        ),
    decreases c2.len(),
{
    let v1 = vocabulary(sentences, c1, stop_words, known_words);
    if c2.len() == 0 {
        assert(c1 + c2 =~= c1);
        assert(v1 + new_lemmas(vocabulary(sentences, c2, stop_words, known_words), v1) =~= v1);
    } else {
        let c21 = c2.drop_last();
        lemma_vocabulary_concat(sentences, c1, c21, stop_words, known_words);
        assert((c1 + c2).drop_last() =~= c1 + c21);
        assert((c1 + c2).last() == c2.last());
        let c = c2.last();
        let p = vocabulary(sentences, c1 + c21, stop_words, known_words);
        let v21 = vocabulary(sentences, c21, stop_words, known_words);
        let v2 = vocabulary(sentences, c2, stop_words, known_words);
        let w1 = new_lemmas(v21, v1);
        assert(p == v1 + w1);
        lemma_has_lemma_new_lemmas(v1, v21, c.1.lemma);
        let e = entry_for(sentences[c.0 as int], c.1);
        if passes_word_filters(c.1.lemma, stop_words, known_words) && !has_lemma(v21, c.1.lemma) {
            assert(v2 == v21.push(e));
            assert(v2.drop_last() =~= v21);
            assert(v2.last() == e);
            if has_lemma(v1, c.1.lemma) {
                assert(new_lemmas(v2, v1) == w1);
            } else {
                assert(new_lemmas(v2, v1) == w1.push(e));
                assert((v1 + w1).push(e) =~= v1 + w1.push(e));
            }
        } else {
            assert(v2 == v21);
        }
    }
}

proof fn lemma_vocabulary_reindex(
    s: Seq<Seq<char>>,
    t: Seq<Seq<char>>,
    c: Seq<(nat, GatedTokenView)>,
    off: nat,
    stop_words: Set<Seq<char>>,
    known_words: Set<Seq<char>>,
)
    requires
        forall|k: int|
            0 <= k < c.len() ==> (#[trigger] c[k]).0 < t.len() && s[(c[k].0 + off) as int] == t[c[k].0 as int],
    ensures
        vocabulary(s, shifted(c, off), stop_words, known_words) == vocabulary(t, c, stop_words, known_words),
    decreases c.len(),
{
    if c.len() > 0 {
        let c1 = c.drop_last();
        assert forall|k: int| 0 <= k < c1.len() implies (#[trigger] c1[k]).0 < t.len() && s[(c1[k].0 + off) as int]
            == t[c1[k].0 as int] by {
            assert(c1[k] == c[k]);
        }
        lemma_vocabulary_reindex(s, t, c1, off, stop_words, known_words);
        assert(shifted(c, off).drop_last() =~= shifted(c1, off));
        assert(shifted(c, off).last() == (c.last().0 + off, c.last().1));
        assert(c[c.len() - 1] == c.last());
    }
}

/// An article's vocabulary is that of its first part followed by the
/// entries of its second part whose lemmas the first part did not yield:
/// each lemma keeps its first occurrence, with that occurrence's context.
pub proof fn law_article_concat(nlp: &LexiFlashNlp, a: Seq<Seq<char>>, b: Seq<Seq<char>>)
    ensures
        nlp.article_vocabulary(a + b) == nlp.article_vocabulary(a) + new_lemmas(
            nlp.article_vocabulary(b),
            nlp.article_vocabulary(a),
        ),
{
    let s = a + b;
    let sw = nlp.stop_words_view();
    let kw = nlp.known_words_view();
    let ca = nlp.article_candidates(a);
    let cb = nlp.article_candidates(b);
    lemma_candidates_concat(nlp, a, b);
    lemma_vocabulary_concat(s, ca, shifted(cb, a.len()), sw, kw);
    lemma_article_candidates_in_range(nlp, a);
    lemma_article_candidates_in_range(nlp, b);
    assert forall|k: int| 0 <= k < ca.len() implies (#[trigger] ca[k]).0 < a.len() && s[(ca[k].0 + 0nat) as int]
        == a[ca[k].0 as int] by {}
    lemma_vocabulary_reindex(s, a, ca, 0, sw, kw);
    assert(shifted(ca, 0) =~= ca);
    assert forall|k: int| 0 <= k < cb.len() implies (#[trigger] cb[k]).0 < b.len() && s[(cb[k].0 + a.len()) as int]
        == b[cb[k].0 as int] by {}
    lemma_vocabulary_reindex(s, b, cb, a.len(), sw, kw);
}

/// How many candidates the first `k` sentences of an article give.
pub open spec fn candidates_before(nlp: &LexiFlashNlp, sentences: Seq<Seq<char>>, k: int) -> int {
    nlp.article_candidates(sentences.take(k)).len() as int
}

proof fn lemma_candidates_before_step(nlp: &LexiFlashNlp, sentences: Seq<Seq<char>>, k: int)
    requires
        0 <= k < sentences.len(),
    ensures
        candidates_before(nlp, sentences, k + 1) == candidates_before(nlp, sentences, k)
            + nlp.steps_1_8_of(sentences[k]).len(),
{
    let t = sentences.take(k + 1);
    assert(t.drop_last() =~= sentences.take(k));
    assert(t.last() == sentences[k]);
}

proof fn lemma_candidates_before_mono(nlp: &LexiFlashNlp, sentences: Seq<Seq<char>>, k1: int, k2: int)
    requires
        0 <= k1 < k2 <= sentences.len(),
    ensures
        candidates_before(nlp, sentences, k1) + nlp.steps_1_8_of(sentences[k1]).len()
            <= candidates_before(nlp, sentences, k2),
    decreases k2 - k1,
{
    lemma_candidates_before_step(nlp, sentences, k1);
    if k1 + 1 < k2 {
        lemma_candidates_before_mono(nlp, sentences, k1 + 1, k2);
    }
}

/// Where the `m`-th gated token of sentence `k` stands among an article's
/// candidates.
proof fn lemma_candidate_position(nlp: &LexiFlashNlp, sentences: Seq<Seq<char>>, k: int, m: int)
    requires
        0 <= k < sentences.len(),
        0 <= m < nlp.steps_1_8_of(sentences[k]).len(),
    ensures
        candidates_before(nlp, sentences, k) + m < nlp.article_candidates(sentences).len(),
        nlp.article_candidates(sentences)[candidates_before(nlp, sentences, k) + m] == (
            k as nat,
            nlp.steps_1_8_of(sentences[k])[m],
        ),
    decreases sentences.len(),
{
    let n = sentences.len() - 1;
    let rest = sentences.drop_last();
    let c = nlp.article_candidates(sentences);
    let cr = nlp.article_candidates(rest);
    let tail = nlp.steps_1_8_of(sentences.last()).map_values(|g: GatedTokenView| (n as nat, g));
    assert(c == cr + tail);
    if k < n {
        assert(rest.take(k) =~= sentences.take(k));
        assert(rest[k] == sentences[k]);
        lemma_candidate_position(nlp, rest, k, m);
        assert(c[candidates_before(nlp, sentences, k) + m] == cr[candidates_before(nlp, rest, k) + m]);
    } else {
        assert(sentences.take(k) =~= rest);
        assert(c[cr.len() + m] == tail[m]);
    }
}

/// Each candidate of an article is the `m`-th gated token of some sentence
/// `k`.
proof fn lemma_candidate_origin(nlp: &LexiFlashNlp, sentences: Seq<Seq<char>>, j: int) -> (km: (int, int))
    requires
        0 <= j < nlp.article_candidates(sentences).len(),
    ensures
        0 <= km.0 < sentences.len(),
        0 <= km.1 < nlp.steps_1_8_of(sentences[km.0]).len(),
        j == candidates_before(nlp, sentences, km.0) + km.1,
        nlp.article_candidates(sentences)[j] == (km.0 as nat, nlp.steps_1_8_of(sentences[km.0])[km.1]),
    decreases sentences.len(),
{
    let n = sentences.len() - 1;
    let rest = sentences.drop_last();
    let c = nlp.article_candidates(sentences);
    let cr = nlp.article_candidates(rest);
    let tail = nlp.steps_1_8_of(sentences.last()).map_values(|g: GatedTokenView| (n as nat, g));
    assert(c == cr + tail);
    if j < cr.len() {
        let km = lemma_candidate_origin(nlp, rest, j);
        assert(rest.take(km.0) =~= sentences.take(km.0));
        assert(rest[km.0] == sentences[km.0]);
        assert(c[j] == cr[j]);
        km
    } else {
        assert(sentences.take(n) =~= rest);
        assert(c[j] == tail[j - cr.len()]);
        (n, j - cr.len())
    }
}

/// Whether the `m`-th gated token of sentence `k` of an article is the
/// first gated token of the article with lemma `lemma`.
pub open spec fn first_gated_with_lemma(nlp: &LexiFlashNlp, sentences: Seq<Seq<char>>, lemma: Seq<char>, k: int, m: int) -> bool {
    &&& 0 <= k < sentences.len()
    &&& 0 <= m < nlp.steps_1_8_of(sentences[k]).len()
    &&& nlp.steps_1_8_of(sentences[k])[m].lemma == lemma
    &&& forall|k2: int, m2: int|
        0 <= k2 < k && 0 <= m2 < nlp.steps_1_8_of(sentences[k2]).len() ==> (#[trigger] nlp.steps_1_8_of(
            sentences[k2],
        )[m2]).lemma != lemma
    &&& forall|m2: int| 0 <= m2 < m ==> (#[trigger] nlp.steps_1_8_of(sentences[k])[m2]).lemma != lemma
}

/// Each entry of an article's vocabulary is made from the first gated token
/// (steps 1-8) of the article with its lemma, and that lemma passes the word
/// filters: its context is cut from the first sentence in which steps 1-8
/// give that lemma.
pub proof fn law_article_entry_origin(nlp: &LexiFlashNlp, sentences: Seq<Seq<char>>)
    ensures
        forall|i: int|
            0 <= i < nlp.article_vocabulary(sentences).len() ==> passes_word_filters(
                (#[trigger] nlp.article_vocabulary(sentences)[i]).lemma,
                nlp.stop_words_view(),
                nlp.known_words_view(),
            ) && exists|k: int, m: int|
                first_gated_with_lemma(nlp, sentences, nlp.article_vocabulary(sentences)[i].lemma, k, m)
                    && nlp.article_vocabulary(sentences)[i] == entry_for(
                    sentences[k],
                    nlp.steps_1_8_of(sentences[k])[m],
                ),
{
    let c = nlp.article_candidates(sentences);
    let v = nlp.article_vocabulary(sentences);
    crate::pipeline::lemma_vocabulary_laws(sentences, c, nlp.stop_words_view(), nlp.known_words_view());
    assert forall|i: int| 0 <= i < v.len() implies passes_word_filters(
        (#[trigger] v[i]).lemma,
        nlp.stop_words_view(),
        nlp.known_words_view(),
    ) && exists|k: int, m: int|
        first_gated_with_lemma(nlp, sentences, v[i].lemma, k, m) && v[i] == entry_for(
            sentences[k],
            nlp.steps_1_8_of(sentences[k])[m],
        ) by {
        let l = v[i].lemma;
        let j = choose|j: int|
            crate::pipeline::first_candidate_for(c, l, j) && v[i] == entry_for(sentences[c[j].0 as int], c[j].1);
        let km = lemma_candidate_origin(nlp, sentences, j);
        let k = km.0;
        let m = km.1;
        assert forall|k2: int, m2: int|
            0 <= k2 < k && 0 <= m2 < nlp.steps_1_8_of(sentences[k2]).len() implies (
            #[trigger] nlp.steps_1_8_of(sentences[k2])[m2]).lemma != l by {
            lemma_candidate_position(nlp, sentences, k2, m2);
            lemma_candidates_before_mono(nlp, sentences, k2, k);
            let j2 = candidates_before(nlp, sentences, k2) + m2;
            assert(c[j2].1.lemma != l);
        }
        assert forall|m2: int| 0 <= m2 < m implies (#[trigger] nlp.steps_1_8_of(sentences[k])[m2]).lemma
            != l by {
            lemma_candidate_position(nlp, sentences, k, m2);
            let j2 = candidates_before(nlp, sentences, k) + m2;
            assert(c[j2].1.lemma != l);
        }
        assert(first_gated_with_lemma(nlp, sentences, l, k, m));
    }
}

proof fn lemma_first_gated_is_first_candidate(
    nlp: &LexiFlashNlp,
    sentences: Seq<Seq<char>>,
    lemma: Seq<char>,
    k: int,
    m: int,
)
    requires
        first_gated_with_lemma(nlp, sentences, lemma, k, m),
    ensures
        crate::pipeline::first_candidate_for(
            nlp.article_candidates(sentences),
            lemma,
            candidates_before(nlp, sentences, k) + m,
        ),
{
    let c = nlp.article_candidates(sentences);
    let j = candidates_before(nlp, sentences, k) + m;
    lemma_candidate_position(nlp, sentences, k, m);
    assert forall|j2: int| 0 <= j2 < j implies (#[trigger] c[j2]).1.lemma != lemma by {
        let km = lemma_candidate_origin(nlp, sentences, j2);
        if km.0 > k {
            lemma_candidates_before_mono(nlp, sentences, k, km.0);
        } else if km.0 < k {
            assert(nlp.steps_1_8_of(sentences[km.0])[km.1].lemma != lemma);
        } else {
            assert(nlp.steps_1_8_of(sentences[k])[km.1].lemma != lemma);
        }
    }
}

/// An article's entries come in the order in which their lemmas first
/// appear among the gated tokens (steps 1-8) of its sentences.
pub proof fn law_article_entry_order(
    nlp: &LexiFlashNlp,
    sentences: Seq<Seq<char>>,
    i: int,
    i2: int,
    k: int,
    m: int,
    k2: int,
    m2: int,
)
    requires
        0 <= i < i2 < nlp.article_vocabulary(sentences).len(),
        first_gated_with_lemma(nlp, sentences, nlp.article_vocabulary(sentences)[i].lemma, k, m),
        first_gated_with_lemma(nlp, sentences, nlp.article_vocabulary(sentences)[i2].lemma, k2, m2),
    ensures
        k < k2 || (k == k2 && m < m2),
{
    let v = nlp.article_vocabulary(sentences);
    lemma_first_gated_is_first_candidate(nlp, sentences, v[i].lemma, k, m);
    lemma_first_gated_is_first_candidate(nlp, sentences, v[i2].lemma, k2, m2);
    crate::pipeline::lemma_vocabulary_order(
        sentences,
        nlp.article_candidates(sentences),
        nlp.stop_words_view(),
        nlp.known_words_view(),
        i,
        i2,
        candidates_before(nlp, sentences, k) + m,
        candidates_before(nlp, sentences, k2) + m2,
    );
    if k > k2 {
        lemma_candidates_before_mono(nlp, sentences, k2, k);
    }
}

/// Every gated token (steps 1-8) of an article whose lemma passes the word
/// filters has its lemma among the article's entries.
pub proof fn law_article_entry_complete(nlp: &LexiFlashNlp, sentences: Seq<Seq<char>>, k: int, m: int)
    requires
        0 <= k < sentences.len(),
        0 <= m < nlp.steps_1_8_of(sentences[k]).len(),
        passes_word_filters(
            nlp.steps_1_8_of(sentences[k])[m].lemma,
            nlp.stop_words_view(),
            nlp.known_words_view(),
        ),
    ensures
        has_lemma(nlp.article_vocabulary(sentences), nlp.steps_1_8_of(sentences[k])[m].lemma),
{
    let c = nlp.article_candidates(sentences);
    crate::pipeline::lemma_vocabulary_laws(sentences, c, nlp.stop_words_view(), nlp.known_words_view());
    lemma_candidate_position(nlp, sentences, k, m);
    let j = candidates_before(nlp, sentences, k) + m;
    assert(c[j].1 == nlp.steps_1_8_of(sentences[k])[m]);
}

/// A letter stands right before or right after the character span of `s`
/// that the byte span `span` marks.
pub open spec fn letter_beside(s: Seq<char>, span: (usize, usize)) -> bool {
    let a = char_index_at(s, span.0 as int);
    let b = char_index_at(s, span.1 as int);
    (a > 0 && is_alphabetic(s[a - 1])) || (b < s.len() && is_alphabetic(s[b]))
}

/// The token search skips an occurrence only for a letter right beside it:
/// it reports the first occurrence with no letter on either side (any other
/// neighbour, such as an apostrophe, a comma or a space, never makes it
/// skip), and reports none only when every occurrence has a letter beside
/// it.
pub proof fn law_search_skips_only_letter_neighbours(s: Seq<char>, spans: Seq<(usize, usize)>)
    requires
        s.len() <= usize::MAX,
        spans_on_char_offsets(s, spans),
    ensures
        first_whole_word(s, spans) is None <==> forall|k: int|
            0 <= k < spans.len() ==> letter_beside(s, #[trigger] spans[k]),
        first_whole_word(s, spans) matches Some(span) ==> exists|k: int|
            {
                &&& 0 <= k < spans.len()
                &&& !letter_beside(s, #[trigger] spans[k])
                &&& span == (char_index_at(s, spans[k].0 as int) as usize, char_index_at(s, spans[k].1 as int) as usize)
                &&& forall|k2: int| 0 <= k2 < k ==> letter_beside(s, #[trigger] spans[k2])
            },
    decreases spans.len(),
{
    if spans.len() > 0 {
        let rest = spans.drop_first();
        assert forall|k: int| 0 <= k < rest.len() implies {
            &&& (#[trigger] rest[k]).0 <= rest[k].1
            &&& crate::text::is_char_offset(s, rest[k].0 as int)
            &&& crate::text::is_char_offset(s, rest[k].1 as int)
        } by {
            assert(rest[k] == spans[k + 1]);
        }
        law_search_skips_only_letter_neighbours(s, rest);
        if letter_beside(s, spans[0]) {
            assert forall|k: int| 0 <= k < spans.len() && k > 0 implies (letter_beside(s, #[trigger] spans[k])
                <==> letter_beside(s, rest[k - 1])) by {
                assert(rest[k - 1] == spans[k]);
            }
            if let Some(span) = first_whole_word(s, spans) {
                let k = choose|k: int|
                    {
                        &&& 0 <= k < rest.len()
                        &&& !letter_beside(s, #[trigger] rest[k])
                        &&& span == (char_index_at(s, rest[k].0 as int) as usize, char_index_at(s, rest[k].1 as int) as usize)
                        &&& forall|k2: int| 0 <= k2 < k ==> letter_beside(s, #[trigger] rest[k2])
                    };
                assert(rest[k] == spans[k + 1]);
                assert forall|k2: int| 0 <= k2 < k + 1 implies letter_beside(s, #[trigger] spans[k2]) by {
                    if k2 > 0 {
                        assert(rest[k2 - 1] == spans[k2]);
                    }
                }
            } else {
                assert forall|k: int| 0 <= k < spans.len() implies letter_beside(s, #[trigger] spans[k]) by {
                    if k > 0 {
                        assert(rest[k - 1] == spans[k]);
                    }
                }
            }
        } else {
            assert(first_whole_word(s, spans) is Some);
        }
    }
}

/// A token of two or more characters whose case-insensitive occurrence has
/// no letter beside it is found by the search that the context truncation
/// cuts around.
pub proof fn law_token_found_without_letter_beside(s: Seq<char>, t: Seq<char>, spans: Seq<(usize, usize)>, k: int)
    requires
        s.len() <= usize::MAX,
        t.len() >= 2,
        regex_match_spans_limited(case_insensitive_literal(t), TOKEN_REGEX_SIZE_LIMIT, s) == Some(spans),
        spans_on_char_offsets(s, spans),
        0 <= k < spans.len(),
        !letter_beside(s, spans[k]),
    ensures
        token_match(s, t) is Some,
{
    law_search_skips_only_letter_neighbours(s, spans);
}

/// The synset whose lexicographer file the WordNet gate consults: the first
/// noun synset when the index lists any noun synset for the lemma, else the
/// first verb synset, else the first adjective synset, else the first
/// adverb synset, else none.
pub proof fn law_first_synset_prefers_nouns(index: Map<(WordnetPos, Seq<char>), Seq<SynsetRef>>, lemma: Seq<char>)
    ensures
        ({
            let n = synsets_under(index, WordnetPos::Noun, lemma);
            let v = synsets_under(index, WordnetPos::Verb, lemma);
            let a = synsets_under(index, WordnetPos::Adj, lemma);
            let r = synsets_under(index, WordnetPos::Adv, lemma);
            &&& n.len() > 0 ==> first_synset_of(index, lemma) == Some(n[0])
            &&& n.len() == 0 && v.len() > 0 ==> first_synset_of(index, lemma) == Some(v[0])
            &&& n.len() == 0 && v.len() == 0 && a.len() > 0 ==> first_synset_of(index, lemma) == Some(a[0])
            &&& n.len() == 0 && v.len() == 0 && a.len() == 0 && r.len() > 0 ==> first_synset_of(index, lemma) == Some(r[0])
            &&& n.len() == 0 && v.len() == 0 && a.len() == 0 && r.len() == 0 ==> first_synset_of(index, lemma) is None
        }),
{
    let o = crate::engine::lookup_order();
    assert(o.drop_first() =~= seq![WordnetPos::Verb, WordnetPos::Adj, WordnetPos::Adv]);
    assert(o.drop_first().drop_first() =~= seq![WordnetPos::Adj, WordnetPos::Adv]);
    assert(o.drop_first().drop_first().drop_first() =~= seq![WordnetPos::Adv]);
    assert(o.drop_first().drop_first().drop_first().drop_first() =~= Seq::<WordnetPos>::empty());
    reveal_with_fuel(crate::engine::first_synset_from, 5);
}

/// A prepared token takes its label and its lemma from the same reading,
/// the tagger's first: readings after the first change nothing.
pub proof fn law_prepared_token_uses_first_reading(tok: RawTokenView, start: Option<Seq<char>>)
    requires
        tok.readings.len() > 0,
    ensures
        prepared_token(tok, start) == prepared_token(
            RawTokenView { text: tok.text, readings: seq![tok.readings[0]] },
            start,
        ),
        prepared_token(tok, start) matches Some(p) ==> p.lemma == lowercase_of(tok.readings[0].lemma)
            && p.pos == coarse_label(tok.readings[0].pos),
{
}

/// Word validity has no upper length bound: among words of at least five
/// characters, validity depends only on the letters-only test, so a word
/// the test accepts is valid whatever its length.
pub proof fn law_valid_word_has_no_length_cap(w1: Seq<char>, w2: Seq<char>)
    requires
        w1.len() >= 5,
        w2.len() >= 5,
        regex_match_outcome(letters_only_pattern(), w1) == regex_match_outcome(letters_only_pattern(), w2),
    ensures
        valid_word(w1) == valid_word(w2),
        regex_match_outcome(letters_only_pattern(), w1) == Some(true) ==> valid_word(w1),
        !valid_word(w1.take(4)),
{
}

proof fn lemma_line_pieces_nonempty(s: Seq<char>)
    ensures
        line_pieces(s).len() >= 1,
    decreases s.len(),
{
    if s.len() > 0 {
        lemma_line_pieces_nonempty(s.drop_last());
    }
}

proof fn lemma_last_line(p: Seq<char>, w: Seq<char>)
    requires
        p.len() > 0,
        p.last() == '\n',
        !w.contains('\n'),
    ensures
        line_pieces(p + w).last() == w,
    decreases w.len(),
{
    if w.len() == 0 {
        assert(p + w =~= p);
    } else {
        let w1 = w.drop_last();
        assert(!w1.contains('\n')) by {
            if w1.contains('\n') {
                let i = choose|i: int| 0 <= i < w1.len() && w1[i] == '\n';
                assert(w[i] == '\n');
            }
        }
        lemma_last_line(p, w1);
        assert((p + w).drop_last() =~= p + w1);
        assert((p + w).last() == w.last());
        assert(w.last() != '\n') by {
            assert(w[w.len() - 1] == w.last());
        }
        lemma_line_pieces_nonempty(p + w1);
        assert(w1.push(w.last()) =~= w);
    }
}

proof fn lemma_word_lines_contains(lines: Seq<Seq<char>>, k: int)
    requires
        0 <= k < lines.len(),
        trim(lines[k]).len() > 0,
    ensures
        word_lines(lines).contains(lowercase_of(trim(lines[k]))),
    decreases lines.len(),
{
    let prev = word_lines(lines.drop_last());
    if k < lines.len() - 1 {
        assert(lines.drop_last()[k] == lines[k]);
        lemma_word_lines_contains(lines.drop_last(), k);
        let i = choose|i: int| 0 <= i < prev.len() && prev[i] == lowercase_of(trim(lines[k]));
        assert(word_lines(lines)[i] == prev[i]);
    } else {
        assert(word_lines(lines) == prev.push(lowercase_of(trim(lines.last()))));
        assert(word_lines(lines)[prev.len() as int] == lowercase_of(trim(lines[k])));
    }
}

/// Every non-blank line of a word list contributes its trimmed, lower-cased
/// text, the last line included whether or not a line feed ends it.
pub proof fn law_word_list_keeps_every_line(content: Seq<char>, k: int)
    requires
        0 <= k < line_pieces(content).len(),
        trim(line_pieces(content)[k]).len() > 0,
    ensures
        word_list(content).to_set().contains(lowercase_of(trim(line_pieces(content)[k]))),
{
    lemma_word_lines_contains(line_pieces(content), k);
}

/// The text after the last line feed of a word list is one of its lines:
/// when it is not blank, the list holds it trimmed and lower-cased.
pub proof fn law_word_list_keeps_unterminated_last_line(x: Seq<char>, w: Seq<char>)
    requires
        !w.contains('\n'),
        trim(w).len() > 0,
    ensures
        word_list(x.push('\n') + w).to_set().contains(lowercase_of(trim(w))),
{
    let c = x.push('\n') + w;
    lemma_last_line(x.push('\n'), w);
    lemma_line_pieces_nonempty(c);
    lemma_word_lines_contains(line_pieces(c), line_pieces(c).len() - 1);
}

} // verus!
