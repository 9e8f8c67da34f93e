//! Session state machine: start, cycling, commit and cancel.

use witcher::mru::MruState;
use witcher::session::{Session, SessionAction, SessionEvent, SessionKey, SwitcherControl};
use witcher::types::{IconHandle, WindowEntry};

fn entry(id: u64, focused: bool) -> WindowEntry {
    WindowEntry { id, is_focused: focused, icon: IconHandle { slot: id } }
}

fn three_window_session() -> Session {
    let mut mru = MruState::default();
    let windows = vec![entry(10, true), entry(20, false), entry(30, false)];
    Session::start(windows, &mut mru).expect("non-empty snapshot starts a session")
}

#[test]
fn empty_snapshot_stays_idle() {
    let mut mru = MruState::default();
    mru.update_on_focus(1);
    let before = mru.history();
    assert!(Session::start(Vec::new(), &mut mru).is_none());
    assert_eq!(mru.history(), before);
}

#[test]
fn initial_selection_is_second_window() {
    // Windows [A(focused), B, C] with empty history rank [A, B, C];
    // the initial selection is B, the conventional alt-tab target.
    let session = three_window_session();
    assert_eq!(session.selected(), 1);
    assert_eq!(session.entries()[1].id, 20);
}

#[test]
fn single_window_selects_index_zero() {
    let mut mru = MruState::default();
    let session = Session::start(vec![entry(10, true)], &mut mru).unwrap();
    assert_eq!(session.selected(), 0);
}

#[test]
fn start_records_the_already_focused_window() {
    let mut mru = MruState::default();
    let _ = Session::start(vec![entry(10, true), entry(20, false)], &mut mru).unwrap();
    assert_eq!(mru.history(), vec![10]);
}

#[test]
fn cycling_wraps_in_both_directions() {
    let mut session = three_window_session();
    assert_eq!(session.selected(), 1);
    session.cycle(1);
    assert_eq!(session.selected(), 2);
    session.cycle(1);
    assert_eq!(session.selected(), 0);
    session.cycle(-1);
    assert_eq!(session.selected(), 2);
}

#[test]
fn full_rotation_returns_to_the_original_selection() {
    let mut session = three_window_session();
    let start = session.selected();
    for _ in 0..session.entries().len() {
        session.cycle(1);
    }
    assert_eq!(session.selected(), start);
}

#[test]
fn cycle_forward_then_back_is_a_no_op() {
    let mut session = three_window_session();
    let start = session.selected();
    session.cycle(1);
    session.cycle(-1);
    assert_eq!(session.selected(), start);
}

#[test]
fn cycle_reports_redraw_only_on_change() {
    let mut session = three_window_session();
    assert_eq!(session.cycle(1), SessionAction::Redraw);
    let mut mru = MruState::default();
    let mut single = Session::start(vec![entry(10, true)], &mut mru).unwrap();
    assert_eq!(single.cycle(1), SessionAction::Stay);
}

#[test]
fn confirm_commits_the_selected_window_once() {
    let mut session = three_window_session();
    let action = session.step(SessionEvent::Press(SessionKey::Confirm));
    assert_eq!(action, SessionAction::Commit(20));
    assert!(session.is_done());
    assert!(session.is_finalized());
    // The finalize latch: a second commit signal does nothing.
    let again = session.step(SessionEvent::Press(SessionKey::Confirm));
    assert_eq!(again, SessionAction::Stay);
}

#[test]
fn releasing_the_modifier_commits() {
    let mut session = three_window_session();
    session.step(SessionEvent::ModifiersChanged(true));
    session.step(SessionEvent::Control(SwitcherControl::CycleNext));
    assert_eq!(session.selected(), 2);
    let action = session.step(SessionEvent::ModifiersChanged(false));
    assert_eq!(action, SessionAction::Commit(30));
}

#[test]
fn alt_release_key_event_commits() {
    let mut session = three_window_session();
    let action = session.step(SessionEvent::Release(SessionKey::AltModifier));
    assert_eq!(action, SessionAction::Commit(20));
}

#[test]
fn escape_cancels_without_commit() {
    let mut session = three_window_session();
    let action = session.step(SessionEvent::Press(SessionKey::Escape));
    assert_eq!(action, SessionAction::Cancel);
    assert!(session.is_done());
    assert!(!session.is_finalized());
}

#[test]
fn surface_loss_cancels_without_commit() {
    let mut session = three_window_session();
    let action = session.step(SessionEvent::SurfaceClosed);
    assert_eq!(action, SessionAction::Cancel);
    assert!(!session.is_finalized());
}

#[test]
fn control_messages_cycle_the_live_selection() {
    let mut session = three_window_session();
    session.step(SessionEvent::Control(SwitcherControl::CycleNext));
    assert_eq!(session.selected(), 2);
    session.step(SessionEvent::Control(SwitcherControl::CyclePrev));
    assert_eq!(session.selected(), 1);
}

#[test]
fn tab_keys_cycle_the_selection() {
    let mut session = three_window_session();
    assert_eq!(
        session.step(SessionEvent::Press(SessionKey::Tab)),
        SessionAction::Redraw
    );
    assert_eq!(session.selected(), 2);
    session.step(SessionEvent::Press(SessionKey::ShiftTab));
    assert_eq!(session.selected(), 1);
    assert_eq!(
        session.step(SessionEvent::Press(SessionKey::Other)),
        SessionAction::Stay
    );
}
