use lexiflash::engine::{NlpSetupError, Tagger};
use lexiflash::pipeline::{collect_vocabulary, gate_token, prepare_tokens_from};
use lexiflash::tokens::{GatedToken, RawToken, TagReading, VocabularyEntry};
use lexiflash::wordlist::WordSet;

fn token(text: &str, pos: &str, lemma: &str) -> RawToken {
    RawToken {
        text: text.to_string(),
        readings: vec![TagReading { pos: pos.to_string(), lemma: lemma.to_string() }],
    }
}

#[test]
fn tagger_refuses_empty_model_data() {
    assert!(matches!(Tagger::load(&[]), Err(NlpSetupError::TokenizerData)));
}

fn candidates_of(tagged: &[Vec<RawToken>], first_index: usize) -> Vec<(usize, GatedToken)> {
    let mut out = Vec::new();
    for (k, sentence) in tagged.iter().enumerate() {
        for t in prepare_tokens_from(&vec![sentence.clone()]) {
            if let Some(g) = gate_token(&t, None) {
                out.push((first_index + k, g));
            }
        }
    }
    out
}

fn lemmas(entries: &[VocabularyEntry]) -> Vec<String> {
    entries.iter().map(|e| e.lemma.clone()).collect()
}

#[test]
fn article_vocabulary_of_two_parts_keeps_first_occurrences() {
    let first = vec!["Engineers measured sturdy bridges.".to_string()];
    let second = vec!["Sturdy towers impressed engineers.".to_string()];
    let tagged_first = vec![vec![
        token("Engineers", "NNS", "engineer"),
        token("measured", "VBD", "measure"),
        token("sturdy", "JJ", "sturdy"),
        token("bridges", "NNS", "bridge"),
    ]];
    let tagged_second = vec![vec![
        token("Sturdy", "JJ", "sturdy"),
        token("towers", "NNS", "tower"),
        token("impressed", "VBD", "impress"),
        token("engineers", "NNS", "engineer"),
    ]];
    let none = WordSet::new();
    let a = collect_vocabulary(&first, &candidates_of(&tagged_first, 0), &none, &none);
    let b = collect_vocabulary(&second, &candidates_of(&tagged_second, 0), &none, &none);
    let article: Vec<String> = first.iter().chain(second.iter()).cloned().collect();
    let mut all = candidates_of(&tagged_first, 0);
    all.extend(candidates_of(&tagged_second, 1));
    let ab = collect_vocabulary(&article, &all, &none, &none);
    let mut expected = a.clone();
    expected.extend(b.iter().filter(|e| !a.iter().any(|x| x.lemma == e.lemma)).cloned());
    assert_eq!(ab, expected);
    assert_eq!(lemmas(&ab), vec!["engineer", "measure", "sturdy", "bridge", "tower", "impress"]);
    assert_eq!(ab[4].context, second[0]);
}
