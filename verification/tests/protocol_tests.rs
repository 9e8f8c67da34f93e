//! Control-socket protocol classification, acknowledgement and
//! routing.

use witcher::protocol::{
    ack_reply, encode_command, parse_socket_msg, route_command, DaemonMsg, RoutedCommand,
};
use witcher::session::SwitcherControl;

#[test]
fn show_payload_classifies_as_show() {
    assert_eq!(parse_socket_msg(b"show"), DaemonMsg::Show);
}

#[test]
fn prev_payload_classifies_as_show_prev() {
    assert_eq!(parse_socket_msg(b"prev"), DaemonMsg::ShowPrev);
}

#[test]
fn classification_is_case_insensitive() {
    assert_eq!(parse_socket_msg(b"PREV"), DaemonMsg::ShowPrev);
    assert_eq!(parse_socket_msg(b"Prev"), DaemonMsg::ShowPrev);
    assert_eq!(parse_socket_msg(b"SHOW"), DaemonMsg::Show);
}

#[test]
fn surrounding_whitespace_is_ignored() {
    assert_eq!(parse_socket_msg(b"  prev\n"), DaemonMsg::ShowPrev);
    assert_eq!(parse_socket_msg(b"\tprev \r\n"), DaemonMsg::ShowPrev);
}

#[test]
fn unrecognized_and_empty_payloads_default_to_show() {
    assert_eq!(parse_socket_msg(b""), DaemonMsg::Show);
    assert_eq!(parse_socket_msg(b"   "), DaemonMsg::Show);
    assert_eq!(parse_socket_msg(b"previous"), DaemonMsg::Show);
    assert_eq!(parse_socket_msg(b"pre"), DaemonMsg::Show);
    assert_eq!(parse_socket_msg(b"nonsense"), DaemonMsg::Show);
    assert_eq!(parse_socket_msg(&[0xff, 0xfe, 0x70]), DaemonMsg::Show);
}

#[test]
fn acknowledgement_is_the_two_bytes_ok() {
    let ack = ack_reply();
    assert_eq!(ack.len(), 2);
    assert_eq!(ack, b"ok".to_vec());
}

#[test]
fn encoded_commands_classify_back_to_themselves() {
    for msg in [DaemonMsg::Show, DaemonMsg::ShowPrev] {
        let wire = encode_command(msg);
        assert_eq!(parse_socket_msg(&wire), msg);
    }
    assert_eq!(encode_command(DaemonMsg::Show), b"show".to_vec());
    assert_eq!(encode_command(DaemonMsg::ShowPrev), b"prev".to_vec());
}

#[test]
fn commands_reach_the_session_only_while_one_is_active() {
    assert_eq!(
        route_command(DaemonMsg::Show, true),
        RoutedCommand::ToSession(SwitcherControl::CycleNext)
    );
    assert_eq!(
        route_command(DaemonMsg::ShowPrev, true),
        RoutedCommand::ToSession(SwitcherControl::CyclePrev)
    );
    assert_eq!(
        route_command(DaemonMsg::Show, false),
        RoutedCommand::ToMain(DaemonMsg::Show)
    );
    assert_eq!(
        route_command(DaemonMsg::ShowPrev, false),
        RoutedCommand::ToMain(DaemonMsg::ShowPrev)
    );
}
