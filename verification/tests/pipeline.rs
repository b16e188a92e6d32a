use lexiflash::pipeline::{collect_vocabulary, gate_token, lemmatized_tokens, prepare_tokens_from, tagged_tokens};
use lexiflash::tokens::{
    coarse_pos, is_proper_lexname, map_to_wordnet_pos, PreparedToken, RawToken, TagReading, WordnetPos,
};
use lexiflash::wordlist::WordSet;

fn token(text: &str, pos: &str, lemma: &str) -> RawToken {
    RawToken {
        text: text.to_string(),
        readings: vec![TagReading { pos: pos.to_string(), lemma: lemma.to_string() }],
    }
}

fn tagged_sentence() -> Vec<Vec<RawToken>> {
    vec![vec![
        token("Robert", "NNP", "Robert"),
        token("visited", "VBD", "visit"),
        token("the", "DT", "the"),
        token("beautiful", "JJ", "beautiful"),
        token("Parisian", "JJ", "Parisian"),
        token("cities", "NNS:UN", "city"),
        RawToken { text: "again".to_string(), readings: vec![] },
        token(".", "SENT_END", "."),
    ]]
}

#[test]
fn coarse_labels_and_wordnet_pos() {
    assert_eq!(coarse_pos("NNS:UN"), "NNS");
    assert_eq!(coarse_pos("VBD"), "VBD");
    assert_eq!(coarse_pos(""), "");
    assert_eq!(map_to_wordnet_pos("JJ"), Some(WordnetPos::Adj));
    assert_eq!(map_to_wordnet_pos("VBD"), Some(WordnetPos::Verb));
    assert_eq!(map_to_wordnet_pos("NNS"), Some(WordnetPos::Noun));
    assert_eq!(map_to_wordnet_pos("RB"), Some(WordnetPos::Adv));
    assert_eq!(map_to_wordnet_pos("DT"), None);
    assert_eq!(map_to_wordnet_pos(""), None);
}

#[test]
fn proper_lexnames() {
    assert!(is_proper_lexname(&"noun.person".to_string()));
    assert!(is_proper_lexname(&"noun.location".to_string()));
    assert!(is_proper_lexname(&"noun.group".to_string()));
    assert!(is_proper_lexname(&"noun.object".to_string()));
    assert!(!is_proper_lexname(&"adj.pert".to_string()));
}

#[test]
fn steps_1_6_filter_and_lemmatize() {
    let prepared = prepare_tokens_from(&tagged_sentence());
    let words: Vec<String> = tagged_tokens(&prepared).into_iter().map(|t| t.token).collect();
    assert_eq!(words, vec!["visited", "beautiful", "parisian", "cities"]);
    let lemmas: Vec<String> = lemmatized_tokens(&prepared).into_iter().map(|t| t.lemma).collect();
    assert_eq!(lemmas, vec!["visit", "beautiful", "parisian", "city"]);
    assert_eq!(prepared[3].pos, "NNS");
    assert_eq!(prepared[3].wordnet_pos, Some(WordnetPos::Noun));
    assert!(prepared[2].was_capitalized);
    assert!(!prepared[2].is_sentence_start);
}

#[test]
fn sentence_start_is_the_first_token() {
    let tagged = vec![vec![token("American", "JJ", "American"), token("researchers", "NNS", "researcher")]];
    let prepared = prepare_tokens_from(&tagged);
    assert_eq!(prepared.len(), 2);
    assert!(prepared[0].was_capitalized && prepared[0].is_sentence_start);
    assert!(!prepared[1].was_capitalized && !prepared[1].is_sentence_start);
}

fn prepared(text: &str, capitalized: bool, start: bool) -> PreparedToken {
    PreparedToken {
        original_token: text.to_string(),
        lower_token: text.to_lowercase(),
        pos: "JJ".to_string(),
        wordnet_pos: Some(WordnetPos::Adj),
        lemma: text.to_lowercase(),
        was_capitalized: capitalized,
        is_sentence_start: start,
    }
}

#[test]
fn gate_drops_mid_sentence_capitals() {
    assert!(gate_token(&prepared("Parisian", true, false), None).is_none());
}

#[test]
fn gate_checks_sentence_start_capitals_in_wordnet() {
    assert!(gate_token(&prepared("American", true, true), Some("noun.location".to_string())).is_none());
    let kept = gate_token(&prepared("Curious", true, true), Some("adj.all".to_string())).unwrap();
    assert!(kept.wordnet_gate_checked);
    assert_eq!(kept.wordnet_lexname, Some("adj.all".to_string()));
    let unknown = gate_token(&prepared("Curious", true, true), None).unwrap();
    assert!(unknown.wordnet_gate_checked);
    assert_eq!(unknown.wordnet_lexname, None);
}

#[test]
fn gate_passes_lower_case_tokens_unchecked() {
    let kept = gate_token(&prepared("curious", false, false), Some("noun.person".to_string())).unwrap();
    assert!(!kept.wordnet_gate_checked);
    assert_eq!(kept.wordnet_lexname, None);
    assert_eq!(kept.token, "curious");
}

#[test]
fn vocabulary_keeps_first_occurrence_of_valid_new_words() {
    let sentences = vec![
        "Researchers are analyzing multilingual datasets for robust tagging.".to_string(),
        "More datasets arrived later.".to_string(),
    ];
    let tagged = vec![
        vec![
            token("Researchers", "NNS", "researcher"),
            token("analyzing", "VBG", "analyze"),
            token("multilingual", "JJ", "multilingual"),
            token("datasets", "NNS", "dataset"),
            token("tagging", "VBG", "tag"),
        ],
        vec![token("datasets", "NNS", "dataset"), token("arrived", "VBD", "arrive")],
    ];
    let mut candidates = Vec::new();
    for (index, sentence) in tagged.iter().enumerate() {
        for t in prepare_tokens_from(&vec![sentence.clone()]) {
            if let Some(g) = gate_token(&t, None) {
                candidates.push((index, g));
            }
        }
    }
    let stop = WordSet::from_word_list("arrive\n");
    let known = WordSet::from_word_list("Multilingual\n");
    let entries = collect_vocabulary(&sentences, &candidates, &stop, &known);
    let lemmas: Vec<&str> = entries.iter().map(|e| e.lemma.as_str()).collect();
    assert_eq!(lemmas, vec!["researcher", "analyze", "dataset"]);
    assert_eq!(entries[2].original_token, "datasets");
    assert_eq!(entries[2].context, sentences[0]);
    assert!(!entries.iter().any(|e| e.lemma.chars().count() < 5));
    assert!(!entries.iter().any(|e| e.lemma == "tag"));
}

#[test]
fn long_sentences_are_cut_in_entries() {
    let long = format!("{} pivotal {}", "lorem ".repeat(20), "ipsum ".repeat(20));
    let sentences = vec![long.clone()];
    let tagged = vec![vec![token("pivotal", "JJ", "pivotal")]];
    let candidates: Vec<(usize, _)> = prepare_tokens_from(&tagged)
        .iter()
        .filter_map(|t| gate_token(t, None))
        .map(|g| (0usize, g))
        .collect();
    let entries = collect_vocabulary(&sentences, &candidates, &WordSet::new(), &WordSet::new());
    assert_eq!(entries.len(), 1);
    assert_eq!(entries[0].context.chars().count(), 150);
    assert!(entries[0].context.contains(" pivotal "));
    assert!(entries[0].context.starts_with("...") && entries[0].context.ends_with("..."));
}
