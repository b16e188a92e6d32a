//! Vocabulary extraction for LexiFlash: token filtering, lemma checks,
//! vocabulary collection and sentence-context truncation.
use vstd::prelude::*;

pub mod mock_data;
pub mod text;
pub mod pattern;
pub mod context;
pub mod validate;
pub mod newstoanki;
pub mod wordlist;
pub mod tokens;
pub mod pipeline;
pub mod engine;
pub mod laws;

pub use engine::{LexiFlashNlp, NlpSetupError};
pub use mock_data::{mock_decks, mock_stats, Deck, StudyStats};
pub use tokens::{GatedToken, LemmatizedToken, TaggedToken, VocabularyEntry, WordnetPos};
pub use validate::is_valid_word;

verus! {

} // verus!
