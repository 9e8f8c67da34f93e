//! Recency history and ranking behavior.

use witcher::mru::MruState;
use witcher::types::{IconHandle, WindowEntry};

fn entry(id: u64, focused: bool) -> WindowEntry {
    WindowEntry { id, is_focused: focused, icon: IconHandle { slot: id } }
}

fn ids(entries: &[WindowEntry]) -> Vec<u64> {
    entries.iter().map(|e| e.id).collect()
}

#[test]
fn focus_update_puts_id_at_front() {
    let mut mru = MruState::default();
    mru.update_on_focus(5);
    mru.update_on_focus(7);
    mru.update_on_focus(9);
    assert_eq!(mru.history(), vec![9, 7, 5]);
    // Committing a focus on id 7 moves it to the front, removing the
    // prior occurrence, regardless of its position.
    mru.update_on_focus(7);
    assert_eq!(mru.history(), vec![7, 9, 5]);
}

#[test]
fn focus_update_is_idempotent() {
    let mut once = MruState::default();
    once.update_on_focus(3);
    once.update_on_focus(1);
    let mut twice = MruState::default();
    twice.update_on_focus(3);
    twice.update_on_focus(1);
    twice.update_on_focus(1);
    assert_eq!(once.history(), twice.history());
}

#[test]
fn history_is_capped_and_duplicate_free() {
    let mut mru = MruState::default();
    for id in 0..300u64 {
        mru.update_on_focus(id);
    }
    let history = mru.history();
    assert_eq!(history.len(), 256);
    assert_eq!(history[0], 299);
    // The oldest entries were evicted.
    assert!(!history.contains(&0));
    assert!(!history.contains(&43));
    assert!(history.contains(&44));
    // Re-focusing an id that is already present neither grows the
    // history nor leaves a duplicate behind.
    mru.update_on_focus(150);
    let history = mru.history();
    assert_eq!(history.len(), 256);
    assert_eq!(history.iter().filter(|&&id| id == 150).count(), 1);
    assert_eq!(history[0], 150);
}

#[test]
fn ranking_with_empty_history_keeps_backend_order() {
    let mru = MruState::default();
    let windows = vec![entry(10, true), entry(20, false), entry(30, false)];
    let ranked = mru.order_windows(windows);
    assert_eq!(ids(&ranked), vec![10, 20, 30]);
}

#[test]
fn ranking_places_focused_then_history_then_rest() {
    let mut mru = MruState::default();
    // Most recent first: history reads [2, 3].
    mru.update_on_focus(3);
    mru.update_on_focus(2);
    let windows = vec![entry(1, true), entry(2, false), entry(3, false)];
    let ranked = mru.order_windows(windows);
    // rank(1) = 0 (focused), rank(2) = 1 + 0 (history position 0),
    // rank(3) = 1 + 1.
    assert_eq!(ids(&ranked), vec![1, 2, 3]);
}

#[test]
fn ranking_follows_history_recency() {
    let mut mru = MruState::default();
    // History reads [3, 2]: 3 is the more recently used.
    mru.update_on_focus(2);
    mru.update_on_focus(3);
    let windows = vec![entry(1, true), entry(2, false), entry(3, false)];
    let ranked = mru.order_windows(windows);
    assert_eq!(ids(&ranked), vec![1, 3, 2]);
}

#[test]
fn windows_absent_from_history_follow_known_ones_in_order() {
    let mut mru = MruState::default();
    mru.update_on_focus(50);
    let windows = vec![
        entry(7, false),
        entry(50, false),
        entry(9, false),
        entry(8, false),
    ];
    let ranked = mru.order_windows(windows);
    // No window is focused: 50 is ranked by history, the others keep
    // their backend order after it.
    assert_eq!(ids(&ranked), vec![50, 7, 9, 8]);
}

#[test]
fn ranking_preserves_every_window() {
    let mut mru = MruState::default();
    mru.update_on_focus(4);
    mru.update_on_focus(2);
    let windows = vec![
        entry(1, false),
        entry(2, false),
        entry(3, true),
        entry(4, false),
        entry(5, false),
    ];
    let ranked = mru.order_windows(windows.clone());
    assert_eq!(ranked.len(), windows.len());
    let mut seen = ids(&ranked);
    seen.sort_unstable();
    assert_eq!(seen, vec![1, 2, 3, 4, 5]);
    assert_eq!(ids(&ranked), vec![3, 2, 4, 1, 5]);
}
