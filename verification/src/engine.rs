//! The NLP engine: the `nlprule` tokenizer/tagger and the WordNet database
//! (`wordnet-db`) around the verified pipeline steps.
use vstd::prelude::*;
use std::collections::HashMap;
use nlprule::Tokenizer;
use wordnet_db::WordNet;
use wordnet_types::{Pos, SynsetId};
use crate::context::{token_match, truncated_context};
use crate::pipeline::{
    gated_ok, lemma_gated_ok, lemma_prepared_ok, prepared_ok, candidate_views, collect_vocabulary,
    entry_views, gate_token, gated, gated_view, lemma_vocabulary_laws,
    lemmatized_tokens, lemmatized_view, passes_word_filters, prepare_tokens_from, prepared_sentences,
    prepared_views, raw_views, sentence_views, tagged_tokens, tagged_view, vocabulary,
    CONTEXT_MAX_CHARS,
};
use crate::validate::valid_word;
use crate::tokens::{
    is_proper_noun_label, wordnet_pos_of, GatedToken, GatedTokenView, LemmatizedToken,
    LemmatizedTokenView, PreparedToken, PreparedTokenView, RawToken, RawTokenView, TagReading,
    TaggedToken, TaggedTokenView, VocabularyEntry, VocabularyEntryView, WordnetPos,
};
use crate::wordlist::{lexname_table, line_pieces, parse_lexnames, word_list, WordSet};

verus! {

#[verifier::external_type_specification]
#[verifier::external_body]
pub struct ExTokenizer(Tokenizer);

#[verifier::external_type_specification]
#[verifier::external_body]
pub struct ExTokenizerError(nlprule::Error);

#[verifier::external_type_specification]
#[verifier::external_body]
pub struct ExWordNet(WordNet);

/// How `nlprule` fares with a tokenizer binary.
#[derive(Debug, Clone, Copy, PartialEq, Eq, Structural)]
pub enum ModelStatus {
    /// It deserializes, and the tokenizer built from it tags every text.
    Usable,
    /// Deserializing it fails with an error.
    Unreadable,
    /// It makes `nlprule` panic: while deserializing (a malformed tagger
    /// automaton), or while tagging some text (a stored regular expression
    /// that does not compile).
    Faulty,
}

/// What `nlprule` does with the tokenizer binary `data`.
pub uninterp spec fn tokenizer_model_status(data: Seq<u8>) -> ModelStatus;

/// The sentences, and in each the tokens with their readings, that the
/// tokenizer deserialized from the model bytes `model` gives for `text`.
pub uninterp spec fn tagged_text(model: Seq<u8>, text: Seq<char>) -> Seq<Seq<RawTokenView>>;

/// What a WordNet database answers to each (part of speech, lemma) query:
/// the synsets its index lists, in index order.
pub uninterp spec fn wordnet_lemma_index(database: WordNet) -> Map<(WordnetPos, Seq<char>), Seq<SynsetRef>>;

/// The lexicographer file number of each synset a WordNet database holds.
pub uninterp spec fn wordnet_synset_files(database: WordNet) -> Map<SynsetRef, u8>;

/// A WordNet synset: its part of speech and its offset in the data file.
#[derive(Debug, Clone, Copy, PartialEq, Eq, Structural)]
pub struct SynsetRef {
    pub pos: WordnetPos,
    pub offset: u32,
}

/// `nlprule::Tokenizer::from_reader` over the bytes of a tokenizer binary.
/// Trusted: on bytes that do not make it panic, it succeeds exactly when
/// the bytes are a usable model; nothing is stated of the tokenizer built.
#[verifier::external_body]
fn load_tokenizer(data: &[u8]) -> (r: Result<Tokenizer, nlprule::Error>)
    requires
        tokenizer_model_status(data@) != ModelStatus::Faulty,
    ensures
        r is Ok == (tokenizer_model_status(data@) == ModelStatus::Usable),
{
    let mut reader = data;
    Tokenizer::from_reader(&mut reader)
}

/// `Tokenizer::pipe`: splits `text` into sentences and tags their tokens;
/// each token is copied with its text and every (POS, lemma) reading, in
/// the tagger's order. Trusted: the output is the named tagging of `text`
/// by the tokenizer built from the tagger's model bytes, which must be a
/// usable model (on others `pipe` can panic).
#[verifier::external_body]
fn tokenize(tagger: &Tagger, text: &str) -> (sentences: Vec<Vec<RawToken>>)
    requires
        tokenizer_model_status(tagger@) == ModelStatus::Usable,
    ensures
        raw_views(sentences@) == tagged_text(tagger@, text@),
{
    tagger.tokenizer.pipe(text).map(|sentence| sentence.tokens().iter().map(|token| RawToken {
        text: token.word().as_str().to_string(),
        readings: token.word().tags().iter().map(|tag| TagReading {
            pos: tag.pos().as_str().to_string(),
            lemma: tag.lemma().as_str().to_string(),
        }).collect(),
    }).collect()).collect()
}

/// The synsets listed under `pos` for `lemma`, none when the index has no
/// entry.
pub open spec fn synsets_under(
    index: Map<(WordnetPos, Seq<char>), Seq<SynsetRef>>,
    pos: WordnetPos,
    lemma: Seq<char>,
) -> Seq<SynsetRef> {
    if index.contains_key((pos, lemma)) {
        index[(pos, lemma)]
    } else {
        Seq::empty()
    }
}

/// `WordNet::synsets_for_lemma`: the synsets listed for `lemma` under the
/// part of speech `pos`, each given by its part of speech and offset.
/// Trusted: the result is what the database's index answers to the query.
#[verifier::external_body]
fn synsets_for_lemma(database: &WordNet, pos: WordnetPos, lemma: &str) -> (ids: Vec<SynsetRef>)
    ensures
        ids@ == synsets_under(wordnet_lemma_index(*database), pos, lemma@),
{
    let query = match pos { WordnetPos::Noun => Pos::Noun, WordnetPos::Verb => Pos::Verb, WordnetPos::Adj => Pos::Adj, WordnetPos::Adv => Pos::Adv };
    database.synsets_for_lemma(query, lemma).iter().map(|id| SynsetRef {
        pos: match id.pos { Pos::Noun => WordnetPos::Noun, Pos::Verb => WordnetPos::Verb, Pos::Adj => WordnetPos::Adj, Pos::Adv => WordnetPos::Adv },
        offset: id.offset,
    }).collect()
}

/// `WordNet::get_synset`, keeping the synset's lexicographer file number.
/// Trusted: `None` exactly when the database holds no such synset.
#[verifier::external_body]
fn synset_lex_filenum(database: &WordNet, id: SynsetRef) -> (filenum: Option<u8>)
    ensures
        filenum == (if wordnet_synset_files(*database).contains_key(id) {
            Some(wordnet_synset_files(*database)[id])
        } else {
            None
        }),
{
    let pos = match id.pos { WordnetPos::Noun => Pos::Noun, WordnetPos::Verb => Pos::Verb, WordnetPos::Adj => Pos::Adj, WordnetPos::Adv => Pos::Adv };
    database.get_synset(SynsetId { pos, offset: id.offset }).map(|synset| synset.lex_filenum)
}

/// The parts of speech tried for a lemma, in order.
pub open spec fn lookup_order() -> Seq<WordnetPos> {
    seq![WordnetPos::Noun, WordnetPos::Verb, WordnetPos::Adj, WordnetPos::Adv]
}

/// The first synset listed for `lemma` under the first part of speech of
/// `order` that lists any.
pub open spec fn first_synset_from(
    index: Map<(WordnetPos, Seq<char>), Seq<SynsetRef>>,
    lemma: Seq<char>,
    order: Seq<WordnetPos>,
) -> Option<SynsetRef>
    decreases order.len(),
{
    if order.len() == 0 {
        None
    } else if synsets_under(index, order[0], lemma).len() > 0 {
        Some(synsets_under(index, order[0], lemma)[0])
    } else {
        first_synset_from(index, lemma, order.drop_first())
    }
}

/// The first synset of `lemma`: nouns, then verbs, adjectives, adverbs.
pub open spec fn first_synset_of(index: Map<(WordnetPos, Seq<char>), Seq<SynsetRef>>, lemma: Seq<char>) -> Option<SynsetRef> {
    first_synset_from(index, lemma, lookup_order())
}

/// The lexicographer file name of synset `id`, when the database has the
/// synset and the file number has a name.
pub open spec fn lexname_of(lexnames: Map<u8, Seq<char>>, files: Map<SynsetRef, u8>, id: Option<SynsetRef>) -> Option<Seq<char>> {
    match id {
        Some(i) => if files.contains_key(i) && lexnames.contains_key(files[i]) {
            Some(lexnames[files[i]])
        } else {
            None
        },
        None => None,
    }
}

/// The first synset of `lemma`, trying nouns, verbs, adjectives and adverbs
/// in that order.
fn first_synset_id_for_lemma(database: &WordNet, lemma: &str) -> (r: Option<SynsetRef>)
    ensures
        r == first_synset_of(wordnet_lemma_index(*database), lemma@),
{
    let ghost index = wordnet_lemma_index(*database);
    let order = vec![WordnetPos::Noun, WordnetPos::Verb, WordnetPos::Adj, WordnetPos::Adv];
    assert(order@.skip(0) =~= lookup_order());
    let mut i: usize = 0;
    while i < order.len()
        invariant
            index == wordnet_lemma_index(*database),
            order@ == lookup_order(),
            i <= order@.len(),
            first_synset_from(index, lemma@, order@.skip(i as int)) == first_synset_of(index, lemma@),
        decreases order@.len() - i,
    {
        let ids = synsets_for_lemma(database, order[i], lemma);
        assert(order@.skip(i as int)[0] == order@[i as int]);
        if ids.len() > 0 {
            return Some(ids[0]);
        }
        assert(order@.skip(i as int).drop_first() =~= order@.skip(i + 1));
        i = i + 1;
    }
    None
}

/// Why the engine could not be set up.
#[derive(Debug, Clone, Copy, PartialEq, Eq, Structural)]
pub enum NlpSetupError {
    /// The tokenizer binary could not be read.
    TokenizerData,
}

/// A loaded tokenizer, with the model bytes it was built from.
pub struct Tagger {
    tokenizer: Tokenizer,
    model: Ghost<Seq<u8>>,
}

impl View for Tagger {
    type V = Seq<u8>;

    closed spec fn view(&self) -> Seq<u8> {
        self.model@
    }
}

impl Tagger {
    /// A tagger's model is usable.
    #[verifier::type_invariant]
    spec fn model_usable(self) -> bool {
        tokenizer_model_status(self.model@) == ModelStatus::Usable
    }

    /// Builds the tokenizer from the bytes of a tokenizer binary that does not
    /// make `nlprule` panic; fails when the bytes cannot be deserialized.
    pub fn load(data: &[u8]) -> (r: Result<Tagger, NlpSetupError>)
        requires
            tokenizer_model_status(data@) != ModelStatus::Faulty,
        ensures
            r is Ok <==> tokenizer_model_status(data@) == ModelStatus::Usable,
            r matches Ok(t) ==> t@ == data@,
            r matches Err(e) ==> e == NlpSetupError::TokenizerData,
    {
        match load_tokenizer(data) {
            Ok(tokenizer) => Ok(Tagger { tokenizer, model: Ghost(data@) }),
            Err(_) => Err(NlpSetupError::TokenizerData),
        }
    }
}

struct WordnetResources {
    lexnames: HashMap<u8, String>,
    database: WordNet,
}

/// The vocabulary extraction engine.
pub struct LexiFlashNlp {
    tagger: Tagger,
    wordnet: WordnetResources,
    stop_words: WordSet,
    known_words: WordSet,
}

impl LexiFlashNlp {
    /// The stop words in use.
    pub closed spec fn stop_words_view(&self) -> Set<Seq<char>> {
        self.stop_words@
    }

    /// The known words in use.
    pub closed spec fn known_words_view(&self) -> Set<Seq<char>> {
        self.known_words@
    }

    /// The lexicographer file names by number.
    pub closed spec fn lexnames_view(&self) -> Map<u8, Seq<char>> {
        self.wordnet.lexnames@.map_values(|name: String| name@)
    }

    /// The bytes of the tokenizer model in use.
    pub closed spec fn model_view(&self) -> Seq<u8> {
        self.tagger@
    }

    /// The WordNet index in use.
    pub closed spec fn lemma_index_view(&self) -> Map<(WordnetPos, Seq<char>), Seq<SynsetRef>> {
        wordnet_lemma_index(self.wordnet.database)
    }

    /// The lexicographer file numbers of the WordNet synsets in use.
    pub closed spec fn synset_files_view(&self) -> Map<SynsetRef, u8> {
        wordnet_synset_files(self.wordnet.database)
    }

    /// The lexicographer file name of the first synset of `lemma`.
    pub open spec fn lemma_lexname(&self, lemma: Seq<char>) -> Option<Seq<char>> {
        lexname_of(self.lexnames_view(), self.synset_files_view(), first_synset_of(self.lemma_index_view(), lemma))
    }

    /// Steps 1-6 on `text`: the prepared tokens of its tagging.
    pub open spec fn prepared_of(&self, text: Seq<char>) -> Seq<PreparedTokenView> {
        prepared_sentences(tagged_text(self.model_view(), text))
    }

    /// Steps 7-8 applied to each prepared token, in order, with the
    /// lexicographer file of its lemma (only the gated tokens remain).
    pub open spec fn gate_seq(&self, prepared: Seq<PreparedTokenView>) -> Seq<GatedTokenView>
        decreases prepared.len(),
    {
        if prepared.len() == 0 {
            Seq::empty()
        } else {
            let prev = self.gate_seq(prepared.drop_last());
            match gated(prepared.last(), self.lemma_lexname(prepared.last().lemma)) {
                Some(g) => prev.push(g),
                None => prev,
            }
        }
    }

    /// The result of steps 1-4 on `text`.
    pub open spec fn steps_1_4_of(&self, text: Seq<char>) -> Seq<TaggedTokenView> {
        self.prepared_of(text).map_values(|t: PreparedTokenView| tagged_view(t))
    }

    /// The result of steps 1-6 on `text`.
    pub open spec fn steps_1_6_of(&self, text: Seq<char>) -> Seq<LemmatizedTokenView> {
        self.prepared_of(text).map_values(|t: PreparedTokenView| lemmatized_view(t))
    }

    /// The result of steps 1-8 on `text`.
    pub open spec fn steps_1_8_of(&self, text: Seq<char>) -> Seq<GatedTokenView> {
        self.gate_seq(self.prepared_of(text))
    }

    /// The gated tokens of an article's sentences, in order, each with the
    /// index of its sentence.
    pub open spec fn article_candidates(&self, sentences: Seq<Seq<char>>) -> Seq<(nat, GatedTokenView)>
        decreases sentences.len(),
    {
        if sentences.len() == 0 {
            Seq::empty()
        } else {
            let i = (sentences.len() - 1) as nat;
            self.article_candidates(sentences.drop_last()) + self.steps_1_8_of(sentences.last()).map_values(
                |g: GatedTokenView| (i, g),
            )
        }
    }

    /// The result of steps 1-12 on an article.
    pub open spec fn article_vocabulary(&self, sentences: Seq<Seq<char>>) -> Seq<VocabularyEntryView> {
        vocabulary(sentences, self.article_candidates(sentences), self.stop_words_view(), self.known_words_view())
    }

    /// Sets up the engine from the tokenizer binary, the loaded WordNet
    /// database, and the texts of the `lexnames` file, the stop-word list and
    /// the known-word list (empty when there is none).
    pub fn new(
        tokenizer_data: &[u8],
        database: WordNet,
        lexnames: &str,
        stop_words: &str,
        known_words: &str,
    ) -> (r: Result<LexiFlashNlp, NlpSetupError>)
        requires
            tokenizer_model_status(tokenizer_data@) != ModelStatus::Faulty,
        ensures
            r is Ok <==> tokenizer_model_status(tokenizer_data@) == ModelStatus::Usable,
            r matches Ok(nlp) ==> {
                &&& nlp.model_view() == tokenizer_data@
                &&& nlp.lemma_index_view() == wordnet_lemma_index(database)
                &&& nlp.synset_files_view() == wordnet_synset_files(database)
                &&& nlp.lexnames_view() == lexname_table(line_pieces(lexnames@))
                &&& nlp.stop_words_view() == word_list(stop_words@).to_set()
                &&& nlp.known_words_view() == word_list(known_words@).to_set()
            },
            r matches Err(e) ==> e == NlpSetupError::TokenizerData,
    {
        let tagger = match Tagger::load(tokenizer_data) {
            Ok(t) => t,
            Err(e) => {
                return Err(e);
            },
        };
        let lexnames = parse_lexnames(lexnames);
        let stop_words = WordSet::from_word_list(stop_words);
        let known_words = WordSet::from_word_list(known_words);
        Ok(
            LexiFlashNlp {
                tagger,
                wordnet: WordnetResources { lexnames, database },
                stop_words,
                known_words,
            },
        )
    }

    /// The lexicographer file name of the first synset of `lemma`, if WordNet
    /// lists one.
    fn lexname_for_lemma(&self, lemma: &String) -> (r: Option<String>)
        ensures
            crate::tokens::optional_text(r) == self.lemma_lexname(lemma@),
    {
        broadcast use vstd::std_specs::hash::group_hash_axioms;
        match first_synset_id_for_lemma(&self.wordnet.database, lemma.as_str()) {
            Some(id) => match synset_lex_filenum(&self.wordnet.database, id) {
                Some(filenum) => match self.wordnet.lexnames.get(&filenum) {
                    Some(name) => {
                        let found = name.clone();
                        assert(self.lexnames_view()[filenum] == found@);
                        Some(found)
                    },
                    None => None,
                },
                None => None,
            },
            None => None,
        }
    }

    /// Steps 7-8 for one prepared token: WordNet is consulted only for a
    /// capitalised token that starts its sentence, with the token's lemma.
    pub fn apply_steps_7_8(&self, token: &PreparedToken) -> (r: Option<GatedToken>)
        ensures
            gated_view(r) == gated(token@, self.lemma_lexname(token@.lemma)),
    {
        let lexname = if token.was_capitalized && token.is_sentence_start {
            self.lexname_for_lemma(&token.lemma)
        } else {
            None
        };
        gate_token(token, lexname)
    }

    /// Steps 1-6 on one piece of text, as tagged by the tokenizer.
    fn prepare_tokens(&self, sentence: &str) -> (r: Vec<PreparedToken>)
        ensures
            prepared_views(r@) == self.prepared_of(sentence@),
    {
        proof {
            use_type_invariant(&self.tagger);
        }
        let tagged = tokenize(&self.tagger, sentence);
        prepare_tokens_from(&tagged)
    }
}

/// The laws of steps 7-8 hold of every token that `gate_seq` lets through.
proof fn lemma_gate_seq_ok(nlp: &LexiFlashNlp, prepared: Seq<PreparedTokenView>)
    requires
        forall|i: int| 0 <= i < prepared.len() ==> prepared_ok(#[trigger] prepared[i]),
    ensures
        forall|i: int|
            0 <= i < nlp.gate_seq(prepared).len() ==> {
                &&& gated_ok(#[trigger] nlp.gate_seq(prepared)[i])
                &&& valid_word(nlp.gate_seq(prepared)[i].token)
                &&& !is_proper_noun_label(nlp.gate_seq(prepared)[i].pos)
            },
    decreases prepared.len(),
{
    if prepared.len() > 0 {
        lemma_gate_seq_ok(nlp, prepared.drop_last());
        lemma_gated_ok(prepared.last(), nlp.lemma_lexname(prepared.last().lemma));
        assert(prepared_ok(prepared[prepared.len() - 1]));
    }
}

pub open spec fn gated_views(v: Seq<GatedToken>) -> Seq<GatedTokenView> {
    v.map_values(|t: GatedToken| t@)
}

impl LexiFlashNlp {
    /// Steps 1-4 on `sentence`: tagging, proper-noun filtering,
    /// lower-casing and word validation.
    pub fn process_sentence_steps_1_4(&self, sentence: &str) -> (r: Vec<TaggedToken>)
        ensures
            r@.map_values(|t: TaggedToken| t@) == self.steps_1_4_of(sentence@),
            forall|i: int|
                0 <= i < r@.len() ==> valid_word((#[trigger] r@[i]).token@) && !is_proper_noun_label(
                    r@[i].pos@,
                ),
    {
        let prepared = self.prepare_tokens(sentence);
        let r = tagged_tokens(&prepared);
        proof {
            lemma_prepared_ok(tagged_text(self.model_view(), sentence@));
            assert forall|i: int| 0 <= i < r@.len() implies valid_word((#[trigger] r@[i]).token@)
                && !is_proper_noun_label(r@[i].pos@) by {
                assert(r@.map_values(|t: TaggedToken| t@).len() == r@.len());
                assert(prepared_views(prepared@).len() == prepared@.len());
                assert(r@.map_values(|t: TaggedToken| t@)[i] == r@[i]@);
                assert(prepared_views(prepared@)[i] == prepared@[i]@);
                assert(prepared_ok(self.prepared_of(sentence@)[i]));
            }
        }
        r
    }

    /// Steps 1-6 on `sentence`: steps 1-4, then the WordNet part of speech
    /// and the lower-cased lemma.
    pub fn process_sentence_steps_1_6(&self, sentence: &str) -> (r: Vec<LemmatizedToken>)
        ensures
            r@.map_values(|t: LemmatizedToken| t@) == self.steps_1_6_of(sentence@),
            forall|i: int|
                0 <= i < r@.len() ==> valid_word((#[trigger] r@[i]).token@) && !is_proper_noun_label(
                    r@[i].pos@,
                ) && r@[i].wordnet_pos == wordnet_pos_of(r@[i].pos@),
    {
        let prepared = self.prepare_tokens(sentence);
        let r = lemmatized_tokens(&prepared);
        proof {
            lemma_prepared_ok(tagged_text(self.model_view(), sentence@));
            assert forall|i: int| 0 <= i < r@.len() implies valid_word((#[trigger] r@[i]).token@)
                && !is_proper_noun_label(r@[i].pos@) && r@[i].wordnet_pos == wordnet_pos_of(
                r@[i].pos@,
            ) by {
                assert(r@.map_values(|t: LemmatizedToken| t@).len() == r@.len());
                assert(prepared_views(prepared@).len() == prepared@.len());
                assert(r@.map_values(|t: LemmatizedToken| t@)[i] == r@[i]@);
                assert(prepared_views(prepared@)[i] == prepared@[i]@);
                assert(prepared_ok(self.prepared_of(sentence@)[i]));
            }
        }
        r
    }

    /// Steps 1-8 on `sentence`: steps 1-6, then the capitalisation heuristic
    /// and the WordNet lexicographer-file gate.
    pub fn process_sentence_steps_1_8(&self, sentence: &str) -> (r: Vec<GatedToken>)
        ensures
            gated_views(r@) == self.steps_1_8_of(sentence@),
            forall|i: int|
                0 <= i < r@.len() ==> {
                    &&& gated_ok((#[trigger] r@[i])@)
                    &&& valid_word(r@[i].token@)
                    &&& !is_proper_noun_label(r@[i].pos@)
                },
    {
        let prepared = self.prepare_tokens(sentence);
        let ghost all = prepared_views(prepared@);
        let mut out: Vec<GatedToken> = Vec::new();
        let mut i: usize = 0;
        assert(all.take(0) =~= Seq::<PreparedTokenView>::empty());
        assert(gated_views(out@) =~= Seq::<GatedTokenView>::empty());
        while i < prepared.len()
            invariant
                all == prepared_views(prepared@),
                all == self.prepared_of(sentence@),
                i <= prepared@.len(),
                gated_views(out@) == self.gate_seq(all.take(i as int)),
            decreases prepared@.len() - i,
        {
            let ghost before = out@;
            let g = self.apply_steps_7_8(&prepared[i]);
            proof {
                let ps = all.take(i + 1);
                assert(ps.drop_last() =~= all.take(i as int));
                assert(ps.last() == prepared@[i as int]@);
            }
            match g {
                Some(t) => {
                    out.push(t);
                    assert(gated_views(out@) =~= gated_views(before).push(t@));
                },
                None => {},
            }
            i = i + 1;
        }
        proof {
            assert(all.take(prepared@.len() as int) =~= all);
            lemma_prepared_ok(tagged_text(self.model_view(), sentence@));
            lemma_gate_seq_ok(self, all);
            assert forall|i: int| 0 <= i < out@.len() implies {
                &&& gated_ok((#[trigger] out@[i])@)
                &&& valid_word(out@[i].token@)
                &&& !is_proper_noun_label(out@[i].pos@)
            } by {
                assert(gated_views(out@)[i] == out@[i]@);
            }
        }
        out
    }
}

/// The laws every result of `process_article` satisfies.
pub open spec fn article_entries_ok(
    sentences: Seq<Seq<char>>,
    entries: Seq<VocabularyEntry>,
    stop_words: Set<Seq<char>>,
    known_words: Set<Seq<char>>,
) -> bool {
    &&& forall|i: int, j: int|
        0 <= i < j < entries.len() ==> (#[trigger] entries[i]).lemma@ != (#[trigger] entries[j]).lemma@
    &&& forall|i: int|
        0 <= i < entries.len() ==> passes_word_filters(
            (#[trigger] entries[i]).lemma@,
            stop_words,
            known_words,
        )
    &&& forall|i: int|
        0 <= i < entries.len() ==> exists|k: int|
            0 <= k < sentences.len() && (#[trigger] entries[i]).context@ == truncated_context(
                sentences[k],
                entries[i].original_token@,
                CONTEXT_MAX_CHARS as int,
                token_match(sentences[k], entries[i].original_token@),
                true,
            )
}

proof fn lemma_article_entries_ok(
    sentences: Seq<Seq<char>>,
    candidates: Seq<(nat, GatedTokenView)>,
    entries: Seq<VocabularyEntry>,
    stop_words: Set<Seq<char>>,
    known_words: Set<Seq<char>>,
)
    requires
        forall|k: int| 0 <= k < candidates.len() ==> (#[trigger] candidates[k]).0 < sentences.len(),
        entry_views(entries) == vocabulary(sentences, candidates, stop_words, known_words),
    ensures
        article_entries_ok(sentences, entries, stop_words, known_words),
{
    lemma_vocabulary_laws(sentences, candidates, stop_words, known_words);
    let v = vocabulary(sentences, candidates, stop_words, known_words);
    assert(entries.len() == v.len());
    assert forall|i: int| 0 <= i < entries.len() implies #[trigger] entries[i]@ == v[i] by {
        assert(entry_views(entries)[i] == entries[i]@);
    }
    assert forall|i: int, j: int| 0 <= i < j < entries.len() implies (#[trigger] entries[i]).lemma@
        != (#[trigger] entries[j]).lemma@ by {
        assert(entries[i]@ == v[i] && entries[j]@ == v[j]);
    }
    assert forall|i: int| 0 <= i < entries.len() implies passes_word_filters(
        (#[trigger] entries[i]).lemma@,
        stop_words,
        known_words,
    ) by {
        assert(entries[i]@ == v[i]);
    }
    assert forall|i: int| 0 <= i < entries.len() implies exists|k: int|
        0 <= k < sentences.len() && (#[trigger] entries[i]).context@ == truncated_context(
            sentences[k],
            entries[i].original_token@,
            CONTEXT_MAX_CHARS as int,
            token_match(sentences[k], entries[i].original_token@),
            true,
        ) by {
        assert(entries[i]@ == v[i]);
        let j = choose|j: int|
            crate::pipeline::first_candidate_for(candidates, v[i].lemma, j) && v[i]
                == crate::pipeline::entry_for(sentences[candidates[j].0 as int], candidates[j].1);
        let k = candidates[j].0 as int;
        assert(0 <= k < sentences.len());
    }
}

/// A copy of a gated token.
fn copy_gated(g: &GatedToken) -> (r: GatedToken)
    ensures
        r@ == g@,
{
    GatedToken {
        token: g.token.clone(),
        pos: g.pos.clone(),
        wordnet_pos: g.wordnet_pos,
        lemma: g.lemma.clone(),
        original_token: g.original_token.clone(),
        was_capitalized: g.was_capitalized,
        wordnet_gate_checked: g.wordnet_gate_checked,
        wordnet_lexname: match &g.wordnet_lexname {
            Some(name) => Some(name.clone()),
            None => None,
        },
    }
}

/// Every candidate of an article names one of its sentences.
pub proof fn lemma_article_candidates_in_range(nlp: &LexiFlashNlp, sentences: Seq<Seq<char>>)
    ensures
        forall|k: int|
            0 <= k < nlp.article_candidates(sentences).len() ==> (#[trigger] nlp.article_candidates(
                sentences,
            )[k]).0 < sentences.len(),
    decreases sentences.len(),
{
    if sentences.len() > 0 {
        lemma_article_candidates_in_range(nlp, sentences.drop_last());
        let a = nlp.article_candidates(sentences.drop_last());
        let i = (sentences.len() - 1) as nat;
        let b = nlp.steps_1_8_of(sentences.last()).map_values(|g: GatedTokenView| (i, g));
        assert forall|k: int| 0 <= k < nlp.article_candidates(sentences).len() implies (
        #[trigger] nlp.article_candidates(sentences)[k]).0 < sentences.len() by {
            if k < a.len() {
                assert(nlp.article_candidates(sentences)[k] == a[k]);
            } else {
                assert(nlp.article_candidates(sentences)[k] == b[k - a.len()]);
            }
        }
    }
}

impl LexiFlashNlp {
    /// Steps 1-12 on the sentences of an article: the vocabulary entries in
    /// order of first occurrence, one per lemma, each lemma a valid word that
    /// is neither a stop word nor a known word, with its sentence cut to at
    /// most 150 characters around the token.
    pub fn process_article(&self, sentences: &[String]) -> (r: Vec<VocabularyEntry>)
        ensures
            entry_views(r@) == self.article_vocabulary(sentence_views(sentences@)),
            article_entries_ok(
                sentence_views(sentences@),
                r@,
                self.stop_words_view(),
                self.known_words_view(),
            ),
    {
        let ghost all = sentence_views(sentences@);
        let mut candidates: Vec<(usize, GatedToken)> = Vec::new();
        let mut i: usize = 0;
        assert(all.take(0) =~= Seq::<Seq<char>>::empty());
        assert(candidate_views(candidates@) =~= Seq::<(nat, GatedTokenView)>::empty());
        while i < sentences.len()
            invariant
                all == sentence_views(sentences@),
                i <= sentences@.len(),
                candidate_views(candidates@) == self.article_candidates(all.take(i as int)),
                forall|k: int| 0 <= k < candidates@.len() ==> (#[trigger] candidates@[k]).0 < sentences@.len(),
            decreases sentences@.len() - i,
        {
            let gated = self.process_sentence_steps_1_8(sentences[i].as_str());
            let ghost base = candidate_views(candidates@);
            let ghost gs = gated_views(gated@);
            assert(all[i as int] == sentences@[i as int]@);
            let mut j: usize = 0;
            assert(gs.take(0).map_values(|g: GatedTokenView| (i as nat, g)) =~= Seq::<(nat, GatedTokenView)>::empty());
            assert(base + Seq::<(nat, GatedTokenView)>::empty() =~= base);
            while j < gated.len()
                invariant
                    i < sentences@.len(),
                    j <= gated@.len(),
                    gs == gated_views(gated@),
                    candidate_views(candidates@) == base + gs.take(j as int).map_values(
                        |g: GatedTokenView| (i as nat, g),
                    ),
                    forall|k: int| 0 <= k < candidates@.len() ==> (#[trigger] candidates@[k]).0 < sentences@.len(),
                decreases gated@.len() - j,
            {
                let ghost before = candidate_views(candidates@);
                candidates.push((i, copy_gated(&gated[j])));
                proof {
                    assert(gs[j as int] == gated@[j as int]@);
                    assert(gs.take(j + 1).map_values(|g: GatedTokenView| (i as nat, g)) =~= gs.take(
                        j as int,
                    ).map_values(|g: GatedTokenView| (i as nat, g)).push((i as nat, gs[j as int])));
                    assert(candidate_views(candidates@) =~= before.push((i as nat, gs[j as int])));
                }
                j = j + 1;
            }
            proof {
                assert(gs.take(gs.len() as int) =~= gs);
                let t = all.take(i + 1);
                assert(t.drop_last() =~= all.take(i as int));
                assert(t.last() == all[i as int]);
            }
            i = i + 1;
        }
        assert(all.take(all.len() as int) =~= all);
        let r = collect_vocabulary(sentences, &candidates, &self.stop_words, &self.known_words);
        proof {
            lemma_article_candidates_in_range(self, all);
            lemma_article_entries_ok(
                all,
                self.article_candidates(all),
                r@,
                self.stop_words@,
                self.known_words@,
            );
        }
        r
    }

    /// Steps 1-12 on a single sentence: `process_article` on the article
    /// made of `sentence` alone.
    pub fn process_sentence_full(&self, sentence: &str) -> (r: Vec<VocabularyEntry>)
        ensures
            entry_views(r@) == self.article_vocabulary(seq![sentence@]),
            article_entries_ok(seq![sentence@], r@, self.stop_words_view(), self.known_words_view()),
    {
        let sentences = vec![String::from_str(sentence)];
        assert(sentence_views(sentences@) =~= seq![sentence@]);
        self.process_article(sentences.as_slice())
    }
}

} // verus!
