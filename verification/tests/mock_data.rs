use lexiflash::mock_data::{mock_decks, mock_stats};

#[test]
fn mock_decks_are_listed_in_order() {
    let decks = mock_decks();
    assert_eq!(decks.len(), 3);
    assert_eq!(decks[0].title, "VnExpress — Kinh tế");
    assert_eq!(decks[0].vocab_count, 128);
    assert_eq!(decks[0].created_at, "2026-06-20");
    assert_eq!(decks[1].title, "BBC — Technology");
    assert_eq!(decks[1].vocab_count, 94);
    assert_eq!(decks[2].title, "Longform — Essays");
    assert_eq!(decks[2].vocab_count, 56);
    assert_eq!(decks[2].created_at, "2026-06-24");
}

#[test]
fn mock_stats_values() {
    let stats = mock_stats();
    assert_eq!(stats.learned_total, 1042);
    assert_eq!(stats.streak_days, 12);
    assert_eq!(stats.due_today, 38);
}
