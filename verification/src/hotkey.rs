//! Hotkey chord tracking: the per-device state machine that watches
//! raw key events for the Alt+Tab trigger.
//!
//! The shell runs one blocking read loop per qualifying input
//! device; every key event is fed through [`hotkey_step`], which
//! decides the new modifier state and whether a trigger must be
//! pushed to the daemon queue. Multiple devices may race to emit
//! duplicate triggers; the daemon's queue draining absorbs that.

use vstd::prelude::*;

verus! {

/// The keys the chord tracker distinguishes, already mapped from the
/// device's raw key codes.
#[derive(Clone, Copy, Debug, PartialEq, Eq, Structural)]
pub enum HotkeyKey {
    AltLeft,
    AltRight,
    Tab,
    Other,
}

/// Result of one key event: the new modifier state, and whether a
/// trigger fires.
pub open spec fn spec_hotkey_step(
    alt_down: bool,
    key: HotkeyKey,
    pressed: bool,
    session_active: bool,
) -> (bool, bool) {
    match key {
        HotkeyKey::AltLeft => (pressed, false),
        HotkeyKey::AltRight => (pressed, false),
        HotkeyKey::Tab => (alt_down, alt_down && pressed && !session_active),
        HotkeyKey::Other => (alt_down, false),
    }
}

/// Consume one raw key event. A modifier state change updates
/// `alt_down` unconditionally; a trigger-key press while the
/// modifier is down and no session is active fires a trigger.
/// `value` is the raw event value: zero for release, non-zero for
/// press or repeat.
pub fn hotkey_step(alt_down: bool, key: HotkeyKey, value: i32, session_active: bool) -> (r: (
    bool,
    bool,
))
    ensures
        r == spec_hotkey_step(alt_down, key, value != 0, session_active),
{
    match key {
        HotkeyKey::AltLeft => (value != 0, false),
        HotkeyKey::AltRight => (value != 0, false),
        HotkeyKey::Tab => (alt_down, alt_down && value != 0 && !session_active),
        HotkeyKey::Other => (alt_down, false),
    }
}

/// Whether an input device qualifies for chord watching: it must
/// expose the trigger key and at least one of the modifier keys.
pub fn device_qualifies(has_alt_left: bool, has_alt_right: bool, has_tab: bool) -> (r: bool)
    ensures
        r == ((has_alt_left || has_alt_right) && has_tab),
{
    (has_alt_left || has_alt_right) && has_tab
}

} // verus!
