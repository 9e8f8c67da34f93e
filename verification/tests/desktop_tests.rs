//! Desktop-entry text reading and icon-name candidates.

use witcher::desktop::{icon_candidates, parse_desktop_entry_text, startup_class_matches};

#[test]
fn icon_and_startup_class_are_read_from_the_entry_section() {
    let text = "[Desktop Entry]\nName=Terminal\nIcon=kitty-icon\nStartupWMClass=kitty\n";
    let info = parse_desktop_entry_text(text).expect("keys present");
    assert_eq!(info.icon.as_deref(), Some("kitty-icon"));
    assert_eq!(info.startup_wm_class.as_deref(), Some("kitty"));
}

#[test]
fn keys_outside_the_entry_section_are_ignored() {
    let text = "[Desktop Action New]\nIcon=wrong\n[Desktop Entry]\nIcon=right\n[Other]\nIcon=also-wrong\n";
    let info = parse_desktop_entry_text(text).expect("keys present");
    assert_eq!(info.icon.as_deref(), Some("right"));
}

#[test]
fn comments_and_blank_lines_are_skipped() {
    let text = "# a comment\n\n[Desktop Entry]\n# Icon=commented\nIcon=real\n";
    let info = parse_desktop_entry_text(text).expect("keys present");
    assert_eq!(info.icon.as_deref(), Some("real"));
}

#[test]
fn values_are_trimmed_and_empty_values_are_ignored() {
    let text = "[Desktop Entry]\nIcon=   \nStartupWMClass=  spaced  \n";
    let info = parse_desktop_entry_text(text).expect("one key present");
    assert_eq!(info.icon, None);
    assert_eq!(info.startup_wm_class.as_deref(), Some("spaced"));
}

#[test]
fn later_keys_replace_earlier_ones() {
    let text = "[Desktop Entry]\nIcon=first\nIcon=second\n";
    let info = parse_desktop_entry_text(text).expect("keys present");
    assert_eq!(info.icon.as_deref(), Some("second"));
}

#[test]
fn carriage_returns_are_tolerated() {
    let text = "[Desktop Entry]\r\nIcon=dos-file\r\n";
    let info = parse_desktop_entry_text(text).expect("keys present");
    assert_eq!(info.icon.as_deref(), Some("dos-file"));
}

#[test]
fn a_file_without_relevant_keys_yields_nothing() {
    assert!(parse_desktop_entry_text("").is_none());
    assert!(parse_desktop_entry_text("[Desktop Entry]\nName=x\n").is_none());
    assert!(parse_desktop_entry_text("Icon=outside-any-section\n").is_none());
}

#[test]
fn candidates_cover_the_id_and_its_last_segment() {
    assert_eq!(
        icon_candidates("org.gnome.Calculator"),
        vec!["org.gnome.Calculator".to_string(), "Calculator".to_string()]
    );
    assert_eq!(icon_candidates("kitty"), vec!["kitty".to_string(), "kitty".to_string()]);
}

#[test]
fn startup_class_matching_ignores_ascii_case() {
    let candidates = icon_candidates("org.gnome.Calculator");
    assert!(startup_class_matches(&candidates, "calculator"));
    assert!(startup_class_matches(&candidates, "ORG.GNOME.CALCULATOR"));
    assert!(!startup_class_matches(&candidates, "gnome"));
    assert!(!startup_class_matches(&candidates, "calculators"));
}

#[test]
fn a_desktop_suffix_adds_the_stripped_name() {
    assert_eq!(
        icon_candidates("firefox.desktop"),
        vec![
            "firefox.desktop".to_string(),
            "firefox".to_string(),
            "desktop".to_string(),
        ]
    );
}
