//! The control-socket wire protocol and command routing.
//!
//! A client connects to the daemon's endpoint, writes an ASCII
//! command — `show` or `prev`, case-insensitive — and receives the
//! two-byte acknowledgement `ok`. Anything unrecognized or empty
//! counts as `show`. Each classified command is delivered to
//! whichever consumer currently owns routing: an active session, or
//! the main daemon queue.

use vstd::prelude::*;

use crate::session::SwitcherControl;

verus! {

/// A command classified from a control-socket payload.
#[derive(Clone, Copy, Debug, PartialEq, Eq, Structural)]
pub enum DaemonMsg {
    /// Open a session, or cycle an active one forward.
    Show,
    /// Open a session cycling backward, or cycle an active one
    /// backward.
    ShowPrev,
}

/// ASCII whitespace, as both ends of a payload are trimmed.
pub open spec fn spec_is_ascii_ws(b: u8) -> bool {
    b == 32 || (9 <= b <= 13)
}

/// Lower-cased ASCII byte.
pub open spec fn spec_to_lower(b: u8) -> u8 {
    if 65 <= b <= 90 {
        (b + 32) as u8
    } else {
        b
    }
}

/// `s` without leading ASCII whitespace.
pub open spec fn spec_trim_front(s: Seq<u8>) -> Seq<u8>
    decreases s.len(),
{
    if s.len() > 0 && spec_is_ascii_ws(s[0]) {
        spec_trim_front(s.drop_first())
    } else {
        s
    }
}

/// `s` without trailing ASCII whitespace.
pub open spec fn spec_trim_back(s: Seq<u8>) -> Seq<u8>
    decreases s.len(),
{
    if s.len() > 0 && spec_is_ascii_ws(s.last()) {
        spec_trim_back(s.drop_last())
    } else {
        s
    }
}

/// `s` trimmed of ASCII whitespace on both ends.
pub open spec fn spec_trim(s: Seq<u8>) -> Seq<u8> {
    spec_trim_back(spec_trim_front(s))
}

/// Case-insensitive ASCII equality.
pub open spec fn spec_eq_ignore_case(a: Seq<u8>, b: Seq<u8>) -> bool {
    a.len() == b.len() && forall|i: int|
        0 <= i < a.len() ==> spec_to_lower(a[i]) == spec_to_lower(b[i])
}

/// The backward-cycle command word.
pub open spec fn spec_prev_bytes() -> Seq<u8> {
    seq![112u8, 114u8, 101u8, 118u8]
}

/// The forward-cycle command word.
pub open spec fn spec_show_bytes() -> Seq<u8> {
    seq![115u8, 104u8, 111u8, 119u8]
}

/// How a payload is classified: `prev` (case-insensitive, ASCII
/// whitespace around it ignored) means [`DaemonMsg::ShowPrev`];
/// everything else, the empty payload included, defaults to
/// [`DaemonMsg::Show`].
pub open spec fn spec_parse_socket_msg(buf: Seq<u8>) -> DaemonMsg {
    if spec_eq_ignore_case(spec_trim(buf), spec_prev_bytes()) {
        DaemonMsg::ShowPrev
    } else {
        DaemonMsg::Show
    }
}

/// The bytes a thin client writes for `msg`.
pub open spec fn spec_encode_command(msg: DaemonMsg) -> Seq<u8> {
    match msg {
        DaemonMsg::Show => spec_show_bytes(),
        DaemonMsg::ShowPrev => spec_prev_bytes(),
    }
}

fn is_ascii_ws(b: u8) -> (r: bool)
    ensures
        r == spec_is_ascii_ws(b),
{
    b == 32 || (9 <= b && b <= 13)
}

fn to_lower(b: u8) -> (r: u8)
    ensures
        r == spec_to_lower(b),
{
    if 65 <= b && b <= 90 {
        b + 32
    } else {
        b
    }
}

proof fn lemma_trim_front_skip(s: Seq<u8>, i: int)
    requires
        0 <= i <= s.len(),
        forall|j: int| 0 <= j < i ==> spec_is_ascii_ws(s[j]),
    ensures
        spec_trim_front(s) == spec_trim_front(s.skip(i)),
    decreases i,
{
    if i == 0 {
        assert(s.skip(0) =~= s);
    } else {
        lemma_trim_front_skip(s, i - 1);
        assert(s.skip(i - 1).len() > 0);
        assert(s.skip(i - 1)[0] == s[i - 1]);
        assert(s.skip(i - 1).drop_first() =~= s.skip(i));
    }
}

proof fn lemma_trim_back_take(s: Seq<u8>, i: int)
    requires
        0 <= i <= s.len(),
        forall|j: int| i <= j < s.len() ==> spec_is_ascii_ws(s[j]),
    ensures
        spec_trim_back(s) == spec_trim_back(s.take(i)),
    decreases s.len() - i,
{
    if i == s.len() {
        assert(s.take(i) =~= s);
    } else {
        lemma_trim_back_take(s, i + 1);
        assert(s.take(i + 1).len() > 0);
        assert(s.take(i + 1).last() == s[i]);
        assert(s.take(i + 1).drop_last() =~= s.take(i));
    }
}

/// Classify one control-socket payload.
pub fn parse_socket_msg(buf: &[u8]) -> (m: DaemonMsg)
    ensures
        m == spec_parse_socket_msg(buf@),
{
    let ghost s = buf@;
    let n = buf.len();
    let mut lo: usize = 0;
    while lo < n && is_ascii_ws(buf[lo])
        invariant
            lo <= n,
            n == s.len(),
            buf@ == s,
            forall|j: int| 0 <= j < lo ==> spec_is_ascii_ws(s[j]),
        decreases n - lo,
    {
        lo = lo + 1;
    }
    proof {
        lemma_trim_front_skip(s, lo as int);
        if lo < n {
            assert(s.skip(lo as int)[0] == s[lo as int]);
        }
        assert(spec_trim_front(s) == s.skip(lo as int));
    }
    let mut hi: usize = n;
    while hi > lo && is_ascii_ws(buf[hi - 1])
        invariant
            lo <= hi <= n,
            n == s.len(),
            buf@ == s,
            forall|j: int| hi <= j < n ==> spec_is_ascii_ws(s[j]),
        decreases hi,
    {
        hi = hi - 1;
    }
    let ghost trimmed = s.skip(lo as int).take(hi - lo);
    proof {
        lemma_trim_back_take(s.skip(lo as int), hi - lo);
        if hi > lo {
            assert(s.skip(lo as int).take(hi - lo).last() == s[hi - 1]);
        }
        assert(spec_trim(s) == trimmed);
        assert(forall|j: int| 0 <= j < hi - lo ==> trimmed[j] == s[lo + j]);
    }
    if hi - lo == 4 {
        let c0 = to_lower(buf[lo]);
        let c1 = to_lower(buf[lo + 1]);
        let c2 = to_lower(buf[lo + 2]);
        let c3 = to_lower(buf[lo + 3]);
        if c0 == 112 && c1 == 114 && c2 == 101 && c3 == 118 {
            proof {
                assert(spec_eq_ignore_case(trimmed, spec_prev_bytes())) by {
                    assert(spec_to_lower(spec_prev_bytes()[0]) == 112);
                    assert(spec_to_lower(spec_prev_bytes()[1]) == 114);
                    assert(spec_to_lower(spec_prev_bytes()[2]) == 101);
                    assert(spec_to_lower(spec_prev_bytes()[3]) == 118);
                    assert(forall|i: int|
                        0 <= i < 4 ==> spec_to_lower(trimmed[i]) == spec_to_lower(
                            spec_prev_bytes()[i],
                        ));
                }
            }
            return DaemonMsg::ShowPrev;
        }
        proof {
            if spec_eq_ignore_case(trimmed, spec_prev_bytes()) {
                assert(spec_to_lower(trimmed[0]) == spec_to_lower(spec_prev_bytes()[0]));
                assert(spec_to_lower(trimmed[1]) == spec_to_lower(spec_prev_bytes()[1]));
                assert(spec_to_lower(trimmed[2]) == spec_to_lower(spec_prev_bytes()[2]));
                assert(spec_to_lower(trimmed[3]) == spec_to_lower(spec_prev_bytes()[3]));
            }
        }
        return DaemonMsg::Show;
    }
    DaemonMsg::Show
}

/// The bytes a thin client writes to request `msg`.
pub fn encode_command(msg: DaemonMsg) -> (r: Vec<u8>)
    ensures
        r@ == spec_encode_command(msg),
{
    let mut v: Vec<u8> = Vec::new();
    match msg {
        DaemonMsg::Show => {
            v.push(115);
            v.push(104);
            v.push(111);
            v.push(119);
            proof {
                assert(v@ =~= spec_show_bytes());
            }
        },
        DaemonMsg::ShowPrev => {
            v.push(112);
            v.push(114);
            v.push(101);
            v.push(118);
            proof {
                assert(v@ =~= spec_prev_bytes());
            }
        },
    }
    v
}

/// The two-byte acknowledgement (`ok`) the daemon writes back for
/// every accepted connection.
pub fn ack_reply() -> (r: Vec<u8>)
    ensures
        r@ == seq![111u8, 107u8],
        r@.len() == 2,
{
    let mut v: Vec<u8> = Vec::new();
    v.push(111);
    v.push(107);
    proof {
        assert(v@ =~= seq![111u8, 107u8]);
    }
    v
}

/// The wire protocol loses nothing: a payload encoded by the thin
/// client is classified back to the command that produced it.
pub proof fn lemma_command_round_trip(msg: DaemonMsg)
    ensures
        spec_parse_socket_msg(spec_encode_command(msg)) == msg,
{
    let enc = spec_encode_command(msg);
    assert(!spec_is_ascii_ws(enc[0]));
    assert(!spec_is_ascii_ws(enc.last()));
    assert(spec_trim(enc) == enc);
    match msg {
        DaemonMsg::Show => {
            assert(spec_to_lower(spec_trim(enc)[0]) == 115);
            assert(spec_to_lower(spec_prev_bytes()[0]) == 112);
        },
        DaemonMsg::ShowPrev => {
            assert(forall|i: int|
                0 <= i < 4 ==> spec_to_lower(enc[i]) == spec_to_lower(spec_prev_bytes()[i]));
        },
    }
}

/// Where a classified command goes.
#[derive(Clone, Copy, Debug, PartialEq, Eq, Structural)]
pub enum RoutedCommand {
    /// An active session owns routing: the command becomes a cycle
    /// of the live selection.
    ToSession(SwitcherControl),
    /// No session is active: the command goes to the main daemon
    /// queue to start one.
    ToMain(DaemonMsg),
}

/// The routing rule for one classified command.
pub open spec fn spec_route_command(msg: DaemonMsg, session_active: bool) -> RoutedCommand {
    if session_active {
        match msg {
            DaemonMsg::Show => RoutedCommand::ToSession(SwitcherControl::CycleNext),
            DaemonMsg::ShowPrev => RoutedCommand::ToSession(SwitcherControl::CyclePrev),
        }
    } else {
        RoutedCommand::ToMain(msg)
    }
}

/// Decide where a classified command is delivered: into the active
/// session's control channel as a cycle command, or to the main
/// daemon queue when no session is active.
pub fn route_command(msg: DaemonMsg, session_active: bool) -> (r: RoutedCommand)
    ensures
        r == spec_route_command(msg, session_active),
{
    if session_active {
        match msg {
            DaemonMsg::Show => RoutedCommand::ToSession(SwitcherControl::CycleNext),
            DaemonMsg::ShowPrev => RoutedCommand::ToSession(SwitcherControl::CyclePrev),
        }
    } else {
        RoutedCommand::ToMain(msg)
    }
}

} // verus!
