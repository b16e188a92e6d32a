//! The token records of the extraction pipeline and the per-token rules:
//! part-of-speech labels, proper-noun filtering, word validation,
//! lemma normalisation and the capitalisation / WordNet gate.
use vstd::prelude::*;
use crate::text::{char_is_uppercase, chars_of, is_uppercase, lowercase_of, to_lowercase};
use crate::validate::{is_valid_word, valid_word};

verus! {

/// A token after steps 1-4: lower-cased text and coarse POS label.
#[derive(Debug, Clone, PartialEq, Eq)]
pub struct TaggedToken {
    pub token: String,
    pub pos: String,
}

/// The WordNet part of speech a POS label maps to.
#[derive(Debug, Clone, Copy, PartialEq, Eq, Structural)]
pub enum WordnetPos {
    Noun,
    Verb,
    Adj,
    Adv,
}

/// A token after steps 1-6: adds the WordNet part of speech and the lemma.
#[derive(Debug, Clone, PartialEq, Eq)]
pub struct LemmatizedToken {
    pub token: String,
    pub pos: String,
    pub wordnet_pos: Option<WordnetPos>,
    pub lemma: String,
}

/// A token that passed steps 7-8, with the outcome of the WordNet gate.
#[derive(Debug, Clone, PartialEq, Eq)]
pub struct GatedToken {
    pub token: String,
    pub pos: String,
    pub wordnet_pos: Option<WordnetPos>,
    pub lemma: String,
    pub original_token: String,
    pub was_capitalized: bool,
    pub wordnet_gate_checked: bool,
    pub wordnet_lexname: Option<String>,
}

/// One extracted vocabulary item with the context it was found in.
#[derive(Debug, Clone, PartialEq, Eq)]
pub struct VocabularyEntry {
    pub lemma: String,
    pub context: String,
    pub original_token: String,
    pub wordnet_pos: Option<WordnetPos>,
}

/// One (part of speech, lemma) reading the tagger gives a token.
#[derive(Debug, Clone, PartialEq, Eq)]
pub struct TagReading {
    pub pos: String,
    pub lemma: String,
}

/// A token as the tagger returns it: its text and its readings, the
/// primary reading first.
#[derive(Debug, Clone, PartialEq, Eq)]
pub struct RawToken {
    pub text: String,
    pub readings: Vec<TagReading>,
}

/// A token that passed steps 1-6, with what steps 7-8 need.
#[derive(Debug, Clone, PartialEq, Eq)]
pub struct PreparedToken {
    pub original_token: String,
    pub lower_token: String,
    pub pos: String,
    pub wordnet_pos: Option<WordnetPos>,
    pub lemma: String,
    pub was_capitalized: bool,
    pub is_sentence_start: bool,
}

/// The text of a tagger reading.
pub struct TagReadingView {
    pub pos: Seq<char>,
    pub lemma: Seq<char>,
}

/// The text of a token as the tagger returns it.
pub struct RawTokenView {
    pub text: Seq<char>,
    pub readings: Seq<TagReadingView>,
}

impl View for TagReading {
    type V = TagReadingView;

    open spec fn view(&self) -> TagReadingView {
        TagReadingView { pos: self.pos@, lemma: self.lemma@ }
    }
}

impl View for RawToken {
    type V = RawTokenView;

    open spec fn view(&self) -> RawTokenView {
        RawTokenView { text: self.text@, readings: self.readings@.map_values(|r: TagReading| r@) }
    }
}

pub struct TaggedTokenView {
    pub token: Seq<char>,
    pub pos: Seq<char>,
}

pub struct LemmatizedTokenView {
    pub token: Seq<char>,
    pub pos: Seq<char>,
    pub wordnet_pos: Option<WordnetPos>,
    pub lemma: Seq<char>,
}

pub struct PreparedTokenView {
    pub original_token: Seq<char>,
    pub lower_token: Seq<char>,
    pub pos: Seq<char>,
    pub wordnet_pos: Option<WordnetPos>,
    pub lemma: Seq<char>,
    pub was_capitalized: bool,
    pub is_sentence_start: bool,
}

pub struct GatedTokenView {
    pub token: Seq<char>,
    pub pos: Seq<char>,
    pub wordnet_pos: Option<WordnetPos>,
    pub lemma: Seq<char>,
    pub original_token: Seq<char>,
    pub was_capitalized: bool,
    pub wordnet_gate_checked: bool,
    pub wordnet_lexname: Option<Seq<char>>,
}

pub struct VocabularyEntryView {
    pub lemma: Seq<char>,
    pub context: Seq<char>,
    pub original_token: Seq<char>,
    pub wordnet_pos: Option<WordnetPos>,
}

impl View for TaggedToken {
    type V = TaggedTokenView;

    open spec fn view(&self) -> TaggedTokenView {
        TaggedTokenView { token: self.token@, pos: self.pos@ }
    }
}

impl View for LemmatizedToken {
    type V = LemmatizedTokenView;

    open spec fn view(&self) -> LemmatizedTokenView {
        LemmatizedTokenView {
            token: self.token@,
            pos: self.pos@,
            wordnet_pos: self.wordnet_pos,
            lemma: self.lemma@,
        }
    }
}

impl View for PreparedToken {
    type V = PreparedTokenView;

    open spec fn view(&self) -> PreparedTokenView {
        PreparedTokenView {
            original_token: self.original_token@,
            lower_token: self.lower_token@,
            pos: self.pos@,
            wordnet_pos: self.wordnet_pos,
            lemma: self.lemma@,
            was_capitalized: self.was_capitalized,
            is_sentence_start: self.is_sentence_start,
        }
    }
}

pub open spec fn optional_text(s: Option<String>) -> Option<Seq<char>> {
    match s {
        Some(v) => Some(v@),
        None => None,
    }
}

impl View for GatedToken {
    type V = GatedTokenView;

    open spec fn view(&self) -> GatedTokenView {
        GatedTokenView {
            token: self.token@,
            pos: self.pos@,
            wordnet_pos: self.wordnet_pos,
            lemma: self.lemma@,
            original_token: self.original_token@,
            was_capitalized: self.was_capitalized,
            wordnet_gate_checked: self.wordnet_gate_checked,
            wordnet_lexname: optional_text(self.wordnet_lexname),
        }
    }
}

impl View for VocabularyEntry {
    type V = VocabularyEntryView;

    open spec fn view(&self) -> VocabularyEntryView {
        VocabularyEntryView {
            lemma: self.lemma@,
            context: self.context@,
            original_token: self.original_token@,
            wordnet_pos: self.wordnet_pos,
        }
    }
}

/// Index of the first `:` of `label` at or after `i`, or its length.
pub open spec fn colon_index(label: Seq<char>, i: int) -> int
    decreases label.len() - i,
{
    if i < 0 || i >= label.len() || label[i] == ':' {
        i
    } else {
        colon_index(label, i + 1)
    }
}

/// The coarse POS label: the part of a tag before its first `:`.
pub open spec fn coarse_label(label: Seq<char>) -> Seq<char> {
    label.take(colon_index(label, 0))
}

/// The WordNet part of speech of a POS label, by its first letter.
pub open spec fn wordnet_pos_of(label: Seq<char>) -> Option<WordnetPos> {
    if label.len() == 0 {
        None
    } else if label[0] == 'J' {
        Some(WordnetPos::Adj)
    } else if label[0] == 'V' {
        Some(WordnetPos::Verb)
    } else if label[0] == 'N' {
        Some(WordnetPos::Noun)
    } else if label[0] == 'R' {
        Some(WordnetPos::Adv)
    } else {
        None
    }
}

/// Proper-noun labels, whose tokens are dropped.
pub open spec fn is_proper_noun_label(label: Seq<char>) -> bool {
    label == "NNP"@ || label == "NNPS"@
}

/// WordNet lexicographer files of names, places, groups and objects.
pub open spec fn is_proper_lexname_spec(name: Seq<char>) -> bool {
    ||| name == "noun.person"@
    ||| name == "noun.location"@
    ||| name == "noun.group"@
    ||| name == "noun.object"@
}

/// The coarse POS label of `label`: the part before its first `:`.
pub fn coarse_pos(label: &str) -> (r: String)
    ensures
        r@ == coarse_label(label@),
{
    let chars = chars_of(label);
    let mut i: usize = 0;
    while i < chars.len() && chars[i] != ':'
        invariant
            chars@ == label@,
            i <= chars@.len(),
            colon_index(label@, 0) == colon_index(label@, i as int),
        decreases chars@.len() - i,
    {
        i = i + 1;
    }
    crate::text::string_from_range(&chars, 0, i)
}

/// The WordNet part of speech of a POS label: `J*` adjective, `V*` verb,
/// `N*` noun, `R*` adverb, none otherwise.
pub fn map_to_wordnet_pos(tag: &str) -> (r: Option<WordnetPos>)
    ensures
        r == wordnet_pos_of(tag@),
{
    let chars = chars_of(tag);
    if chars.len() == 0 {
        return None;
    }
    let first = chars[0];
    if first == 'J' {
        Some(WordnetPos::Adj)
    } else if first == 'V' {
        Some(WordnetPos::Verb)
    } else if first == 'N' {
        Some(WordnetPos::Noun)
    } else if first == 'R' {
        Some(WordnetPos::Adv)
    } else {
        None
    }
}

/// Whether a WordNet lexicographer file name marks a proper name:
/// `noun.person`, `noun.location`, `noun.group` or `noun.object`.
pub fn is_proper_lexname(lexname: &String) -> (r: bool)
    ensures
        r == is_proper_lexname_spec(lexname@),
{
    *lexname == String::from_str("noun.person") || *lexname == String::from_str("noun.location")
        || *lexname == String::from_str("noun.group") || *lexname == String::from_str("noun.object")
}

} // verus!
