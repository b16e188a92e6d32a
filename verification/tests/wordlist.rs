use lexiflash::wordlist::{parse_lexnames, WordSet};

#[test]
fn word_list_is_trimmed_and_lower_cased() {
    let set = WordSet::from_word_list("  The\nAND \r\n\n\t\nÉcole\n");
    assert!(set.contains(&"the".to_string()));
    assert!(set.contains(&"and".to_string()));
    assert!(set.contains(&"école".to_string()));
    assert!(!set.contains(&"The".to_string()));
    assert!(!set.contains(&"".to_string()));
}

#[test]
fn empty_word_list_holds_nothing() {
    let set = WordSet::from_word_list("");
    assert!(!set.contains(&"word".to_string()));
}

#[test]
fn word_set_insert_reports_novelty() {
    let mut set = WordSet::new();
    assert!(set.insert("alpha".to_string()));
    assert!(!set.insert("alpha".to_string()));
    assert!(set.contains(&"alpha".to_string()));
}

#[test]
fn lexnames_table_is_parsed() {
    let content = "00\tadj.all\t3\n03 noun.Tops 1\n\n  18\tnoun.person\t1  \nxx noun.bad 1\n256 noun.big 1\n+4 noun.act\nlonely\n03 noun.override\n";
    let table = parse_lexnames(content);
    assert_eq!(table.get(&0).map(|s| s.as_str()), Some("adj.all"));
    assert_eq!(table.get(&3).map(|s| s.as_str()), Some("noun.override"));
    assert_eq!(table.get(&18).map(|s| s.as_str()), Some("noun.person"));
    assert_eq!(table.get(&4).map(|s| s.as_str()), Some("noun.act"));
    assert_eq!(table.len(), 4);
}

#[test]
fn word_list_trims_unicode_white_space() {
    let set = WordSet::from_word_list("\u{3000}Hello\u{2003}\n\u{85}kind\u{a0}\nx\u{200b}\n");
    assert!(set.contains(&"hello".to_string()));
    assert!(set.contains(&"kind".to_string()));
    assert!(set.contains(&"x\u{200b}".to_string()));
}
