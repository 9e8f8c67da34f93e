//! Backend adapter normalization: address parsing and encoding,
//! client and monitor records, reply classification.

use witcher::backend::{
    dedup_windows, effective_app_id, focus_result_from_niri, hypr_focus_address,
    hypr_windows_from_json, normalize_clients, output_info_from_niri, parse_hypr_address,
    pick_focused_monitor, round_scale, windows_from_niri_reply, HyprClient, HyprMonitor,
    NiriFocusReply, NiriLogical, NiriOutputReply, NiriWindowsReply,
};
use witcher::types::{AdapterError, BackendWindow};

fn client(address: Option<&str>) -> HyprClient {
    HyprClient {
        address: address.map(|s| s.to_string()),
        class: None,
        initial_class: None,
        focus: None,
        mapped: None,
        hidden: None,
    }
}

#[test]
fn addresses_parse_as_hexadecimal() {
    assert_eq!(parse_hypr_address("0x1a2b"), Some(0x1a2b));
    assert_eq!(parse_hypr_address("1A2B"), Some(0x1a2b));
    assert_eq!(parse_hypr_address(" 0xff "), Some(255));
    assert_eq!(parse_hypr_address("+ff"), Some(255));
    assert_eq!(parse_hypr_address("0"), Some(0));
    assert_eq!(parse_hypr_address("ffffffffffffffff"), Some(u64::MAX));
}

#[test]
fn repeated_hex_prefixes_are_stripped() {
    assert_eq!(parse_hypr_address("0x0x1"), Some(1));
}

#[test]
fn malformed_addresses_are_rejected() {
    assert_eq!(parse_hypr_address(""), None);
    assert_eq!(parse_hypr_address("   "), None);
    assert_eq!(parse_hypr_address("0x"), None);
    assert_eq!(parse_hypr_address("+"), None);
    assert_eq!(parse_hypr_address("xyz"), None);
    assert_eq!(parse_hypr_address("12g4"), None);
    assert_eq!(parse_hypr_address("-5"), None);
    assert_eq!(parse_hypr_address("1ffffffffffffffff"), None);
}

#[test]
fn focus_addresses_encode_in_lower_case_hex() {
    assert_eq!(hypr_focus_address(0x1a2b), "address:0x1a2b");
    assert_eq!(hypr_focus_address(0), "address:0x0");
    assert_eq!(hypr_focus_address(u64::MAX), "address:0xffffffffffffffff");
}

#[test]
fn focus_addresses_parse_back_to_their_id() {
    for id in [0u64, 1, 0x2f, 0xdead_beef, u64::MAX] {
        let addr = hypr_focus_address(id);
        let hex = addr.strip_prefix("address:").unwrap();
        assert_eq!(parse_hypr_address(hex), Some(id));
    }
}

#[test]
fn unmapped_and_hidden_clients_are_dropped() {
    let mut unmapped = client(Some("0x1"));
    unmapped.mapped = Some(false);
    let mut hidden = client(Some("0x2"));
    hidden.hidden = Some(true);
    let kept = client(Some("0x3"));
    let windows = normalize_clients(vec![unmapped, hidden, kept]);
    assert_eq!(windows.len(), 1);
    assert_eq!(windows[0].id, 3);
}

#[test]
fn clients_without_a_parsable_address_are_skipped() {
    let missing = client(None);
    let garbled = client(Some("not-hex"));
    let good = client(Some("0xabc"));
    let windows = normalize_clients(vec![missing, garbled, good]);
    assert_eq!(windows.len(), 1);
    assert_eq!(windows[0].id, 0xabc);
}

#[test]
fn display_identity_prefers_the_initial_class() {
    let mut both = client(Some("0x1"));
    both.class = Some("running".to_string());
    both.initial_class = Some("initial".to_string());
    let mut current_only = client(Some("0x2"));
    current_only.class = Some("running".to_string());
    let windows = normalize_clients(vec![both, current_only]);
    assert_eq!(windows[0].app_id.as_deref(), Some("initial"));
    assert_eq!(windows[1].app_id.as_deref(), Some("running"));
}

#[test]
fn focus_flag_defaults_to_unfocused() {
    let mut focused = client(Some("0x1"));
    focused.focus = Some(true);
    let unfocused = client(Some("0x2"));
    let windows = normalize_clients(vec![focused, unfocused]);
    assert!(windows[0].is_focused);
    assert!(!windows[1].is_focused);
}

#[test]
fn client_json_parses_to_windows() {
    let text = r#"[
        {"address": "0x5", "class": "term", "initialClass": "kitty", "focus": true, "mapped": true, "hidden": false},
        {"address": "0x9", "class": "browser"},
        {"address": "0x6", "mapped": false},
        {"class": "no-address"}
    ]"#;
    let windows = hypr_windows_from_json(text).expect("valid JSON array");
    assert_eq!(windows.len(), 2);
    assert_eq!(windows[0].id, 5);
    assert_eq!(windows[0].app_id.as_deref(), Some("kitty"));
    assert!(windows[0].is_focused);
    assert_eq!(windows[1].id, 9);
    assert_eq!(windows[1].app_id.as_deref(), Some("browser"));
    assert!(!windows[1].is_focused);
}

#[test]
fn non_object_array_elements_yield_fieldless_records() {
    // Elements of the wrong shape reduce to client records with
    // every field absent, which normalization then skips for want
    // of an address.
    assert_eq!(hypr_windows_from_json("[1, \"x\", null]"), Ok(Vec::new()));
}

#[test]
fn malformed_client_json_fails_the_query() {
    assert_eq!(hypr_windows_from_json("not json"), Err(AdapterError::BadJson));
    assert_eq!(hypr_windows_from_json("{\"a\": 1}"), Err(AdapterError::BadJson));
    assert_eq!(hypr_windows_from_json(""), Err(AdapterError::BadJson));
    assert_eq!(hypr_windows_from_json("[]"), Ok(Vec::new()));
}

#[test]
fn scales_round_to_nearest_and_floor_at_one() {
    assert_eq!(round_scale(1000), 1);
    assert_eq!(round_scale(1499), 1);
    assert_eq!(round_scale(1500), 2);
    assert_eq!(round_scale(2000), 2);
    // Scales below 1.0 are floored to 1.0 before rounding.
    assert_eq!(round_scale(500), 1);
    assert_eq!(round_scale(0), 1);
}

#[test]
fn focused_monitor_decides_the_output_info() {
    let monitors = vec![
        HyprMonitor { focused: Some(false), width: Some(800), height: Some(600), scale_milli: Some(1000) },
        HyprMonitor { focused: Some(true), width: Some(2560), height: Some(1440), scale_milli: Some(1500) },
        HyprMonitor { focused: Some(true), width: Some(1), height: Some(1), scale_milli: Some(1000) },
    ];
    let (size, scale) = pick_focused_monitor(&monitors);
    assert_eq!(size, Some((2560, 1440)));
    assert_eq!(scale, 2);
}

#[test]
fn missing_monitor_fields_read_as_defaults() {
    let monitors = vec![HyprMonitor { focused: Some(true), width: None, height: None, scale_milli: None }];
    assert_eq!(pick_focused_monitor(&monitors), (Some((0, 0)), 1));
}

#[test]
fn no_focused_monitor_means_no_geometry() {
    let monitors = vec![
        HyprMonitor { focused: Some(false), width: Some(800), height: Some(600), scale_milli: Some(1000) },
        HyprMonitor { focused: None, width: Some(800), height: Some(600), scale_milli: Some(1000) },
    ];
    assert_eq!(pick_focused_monitor(&monitors), (None, 1));
    assert_eq!(pick_focused_monitor(&Vec::new()), (None, 1));
}

#[test]
fn niri_windows_reply_classification() {
    let ws = vec![BackendWindow { id: 4, app_id: None, is_focused: true }];
    assert_eq!(windows_from_niri_reply(NiriWindowsReply::Windows(ws.clone())), Ok(ws));
    assert_eq!(windows_from_niri_reply(NiriWindowsReply::OtherOk), Ok(Vec::new()));
    assert_eq!(
        windows_from_niri_reply(NiriWindowsReply::Error("boom".to_string())),
        Err(AdapterError::Protocol("boom".to_string()))
    );
}

#[test]
fn niri_focus_reply_classification() {
    assert_eq!(focus_result_from_niri(NiriFocusReply::Handled), Ok(()));
    assert_eq!(focus_result_from_niri(NiriFocusReply::OtherOk), Ok(()));
    assert_eq!(
        focus_result_from_niri(NiriFocusReply::Error("denied".to_string())),
        Err(AdapterError::Protocol("denied".to_string()))
    );
}

#[test]
fn niri_output_reply_classification() {
    let logical = NiriLogical { width: 1920, height: 1080, scale_milli: 2000 };
    assert_eq!(
        output_info_from_niri(NiriOutputReply::Logical(Some(logical))),
        Ok((Some((1920, 1080)), 2))
    );
    assert_eq!(output_info_from_niri(NiriOutputReply::Logical(None)), Ok((None, 1)));
    assert_eq!(output_info_from_niri(NiriOutputReply::OtherOk), Ok((None, 1)));
    assert_eq!(
        output_info_from_niri(NiriOutputReply::Error("gone".to_string())),
        Err(AdapterError::Protocol("gone".to_string()))
    );
}

#[test]
fn duplicate_window_ids_keep_the_first_occurrence() {
    let windows = vec![
        BackendWindow { id: 1, app_id: Some("a".to_string()), is_focused: false },
        BackendWindow { id: 2, app_id: Some("b".to_string()), is_focused: false },
        BackendWindow { id: 1, app_id: Some("c".to_string()), is_focused: true },
    ];
    let deduped = dedup_windows(&windows);
    assert_eq!(deduped.len(), 2);
    assert_eq!(deduped[0].app_id.as_deref(), Some("a"));
    assert_eq!(deduped[1].id, 2);
}

#[test]
fn icon_identity_falls_back_to_the_generic_name() {
    let named = BackendWindow { id: 1, app_id: Some("kitty".to_string()), is_focused: false };
    let anonymous = BackendWindow { id: 2, app_id: None, is_focused: false };
    assert_eq!(effective_app_id(&named), "kitty");
    assert_eq!(effective_app_id(&anonymous), "application-x-executable");
}
