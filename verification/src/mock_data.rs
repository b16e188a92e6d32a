//! Placeholder deck and study data shown on the dashboard.
use vstd::prelude::*;

verus! {

/// A vocabulary deck as listed on the dashboard.
#[derive(Debug, Clone, PartialEq, Eq)]
pub struct Deck {
    pub title: String,
    pub vocab_count: u32,
    pub created_at: String,
}

/// Aggregate study counters shown on the dashboard.
#[derive(Debug, Clone, PartialEq, Eq)]
pub struct StudyStats {
    pub learned_total: u32,
    pub streak_days: u32,
    pub due_today: u32,
}

/// The three placeholder decks, in display order.
pub fn mock_decks() -> (decks: Vec<Deck>)
    ensures
        decks@.len() == 3,
        decks@[0].title@ == "VnExpress — Kinh tế"@,
        decks@[0].vocab_count == 128,
        decks@[0].created_at@ == "2026-06-20"@,
        decks@[1].title@ == "BBC — Technology"@,
        decks@[1].vocab_count == 94,
        decks@[1].created_at@ == "2026-06-21"@,
        decks@[2].title@ == "Longform — Essays"@,
        decks@[2].vocab_count == 56,
        decks@[2].created_at@ == "2026-06-24"@,
{
    let mut decks = Vec::new();
    decks.push(Deck {
        title: String::from_str("VnExpress — Kinh tế"),
        vocab_count: 128,
        created_at: String::from_str("2026-06-20"),
    });
    decks.push(Deck {
        title: String::from_str("BBC — Technology"),
        vocab_count: 94,
        created_at: String::from_str("2026-06-21"),
    });
    decks.push(Deck {
        title: String::from_str("Longform — Essays"),
        vocab_count: 56,
        created_at: String::from_str("2026-06-24"),
    });
    decks
}

/// The placeholder study counters.
pub fn mock_stats() -> (stats: StudyStats)
    ensures
        stats.learned_total == 1042,
        stats.streak_days == 12,
        stats.due_today == 38,
{
    StudyStats { learned_total: 1_042, streak_days: 12, due_today: 38 }
}

} // verus!
