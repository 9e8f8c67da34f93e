//! Backend selection from the argument list, and hotkey decisions.

use witcher::config::{parse_backend_required, BackendParseError};
use witcher::hotkey::{device_qualifies, hotkey_step, HotkeyKey};
use witcher::types::BackendKind;

fn args(list: &[&str]) -> Vec<String> {
    list.iter().map(|s| s.to_string()).collect()
}

#[test]
fn every_known_backend_name_parses() {
    let cases = [
        ("niri", BackendKind::Niri),
        ("sway", BackendKind::Sway),
        ("hyprland", BackendKind::Hyprland),
        ("kwin", BackendKind::Kwin),
        ("gnome", BackendKind::Gnome),
    ];
    for (name, kind) in cases {
        let parsed = parse_backend_required(&args(&["--daemon", "--backend", name]));
        assert_eq!(parsed, Ok(kind));
    }
}

#[test]
fn only_two_backends_have_adapters() {
    assert!(BackendKind::Niri.has_adapter());
    assert!(BackendKind::Hyprland.has_adapter());
    assert!(!BackendKind::Sway.has_adapter());
    assert!(!BackendKind::Kwin.has_adapter());
    assert!(!BackendKind::Gnome.has_adapter());
}

#[test]
fn unknown_backend_names_are_rejected() {
    let parsed = parse_backend_required(&args(&["--backend", "weston"]));
    assert_eq!(parsed, Err(BackendParseError::Unknown));
}

#[test]
fn missing_backend_flag_is_rejected() {
    assert_eq!(parse_backend_required(&args(&[])), Err(BackendParseError::Missing));
    assert_eq!(
        parse_backend_required(&args(&["--daemon"])),
        Err(BackendParseError::Missing)
    );
    assert_eq!(
        parse_backend_required(&args(&["--backend"])),
        Err(BackendParseError::Missing)
    );
}

#[test]
fn the_first_backend_flag_takes_its_following_value() {
    // The value slot is consumed blindly, so a second flag in that
    // slot reads as an (unknown) backend name.
    let parsed = parse_backend_required(&args(&["--backend", "--backend", "niri"]));
    assert_eq!(parsed, Err(BackendParseError::Unknown));
    let parsed = parse_backend_required(&args(&["--backend", "niri", "--backend", "sway"]));
    assert_eq!(parsed, Ok(BackendKind::Niri));
}

#[test]
fn modifier_state_follows_key_events() {
    let (alt, fire) = hotkey_step(false, HotkeyKey::AltLeft, 1, false);
    assert!(alt && !fire);
    let (alt, fire) = hotkey_step(true, HotkeyKey::AltLeft, 0, false);
    assert!(!alt && !fire);
    let (alt, fire) = hotkey_step(false, HotkeyKey::AltRight, 2, false);
    assert!(alt && !fire);
}

#[test]
fn chord_fires_only_with_modifier_down_and_no_session() {
    let (_, fire) = hotkey_step(true, HotkeyKey::Tab, 1, false);
    assert!(fire);
    let (_, fire) = hotkey_step(false, HotkeyKey::Tab, 1, false);
    assert!(!fire);
    let (_, fire) = hotkey_step(true, HotkeyKey::Tab, 0, false);
    assert!(!fire);
    let (_, fire) = hotkey_step(true, HotkeyKey::Tab, 1, true);
    assert!(!fire);
    let (_, fire) = hotkey_step(true, HotkeyKey::Other, 1, false);
    assert!(!fire);
}

#[test]
fn devices_qualify_with_a_modifier_and_the_trigger_key() {
    assert!(device_qualifies(true, false, true));
    assert!(device_qualifies(false, true, true));
    assert!(!device_qualifies(true, true, false));
    assert!(!device_qualifies(false, false, true));
}
