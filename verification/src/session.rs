//! The session controller: the state machine that owns one
//! interactive window selection, from trigger to commit or cancel.
//!
//! States run `Idle -> Active -> Idle`. [`Session::start`] performs
//! the `Idle -> Active` transition: it updates the recency history
//! with the window already focused at snapshot time, ranks the
//! snapshot, and picks the conventional alt-tab target (the
//! second-ranked window) as the initial selection. While active,
//! [`Session::step`] consumes key, modifier and control events and
//! answers with the action the surrounding shell must perform. A
//! `finalized` latch guarantees the focus commit fires at most once
//! per session; cancellation never commits.

use vstd::arithmetic::div_mod::{
    lemma_add_mod_noop, lemma_fundamental_div_mod_converse_mod, lemma_mod_bound, lemma_mod_self_0,
    lemma_small_mod,
};
use vstd::prelude::*;

use crate::mru::{
    lemma_order_windows_len, spec_focused_id, spec_order_windows, spec_update_on_focus,
    find_focused, MruState,
};
use crate::types::WindowEntry;

verus! {

/// Control messages delivered to an active session: they move the
/// live selection instead of starting a new session.
#[derive(Clone, Copy, Debug, PartialEq, Eq, Structural)]
pub enum SwitcherControl {
    CycleNext,
    CyclePrev,
}

/// Key identity as the presentation layer reports it, already
/// stripped of compositor-specific encodings.
#[derive(Clone, Copy, Debug, PartialEq, Eq, Structural)]
pub enum SessionKey {
    /// Cycle the selection forward.
    Tab,
    /// Cycle the selection backward.
    ShiftTab,
    /// Cancel the session.
    Escape,
    /// Commit the selection explicitly.
    Confirm,
    /// The held trigger modifier; its release commits.
    AltModifier,
    /// Anything else: ignored.
    Other,
}

/// One event consumed by an active session.
#[derive(Clone, Copy, Debug, PartialEq, Eq, Structural)]
pub enum SessionEvent {
    Press(SessionKey),
    Release(SessionKey),
    /// New state of the trigger modifier.
    ModifiersChanged(bool),
    /// A command rerouted from the control socket.
    Control(SwitcherControl),
    /// The presentation surface disappeared.
    SurfaceClosed,
}

/// What the shell must do after an event is consumed.
#[derive(Clone, Copy, Debug, PartialEq, Eq, Structural)]
pub enum SessionAction {
    /// Nothing; keep waiting for events.
    Stay,
    /// The selection moved; redraw the panel.
    Redraw,
    /// The session ended without a commit: no focus call, no history
    /// update.
    Cancel,
    /// The session committed: ask the compositor to focus this
    /// window id, then record it in the history.
    Commit(u64),
}

/// Ghost image of a session.
pub struct SessionView {
    pub entries: Seq<WindowEntry>,
    pub selected: int,
    pub alt_down: bool,
    pub finalized: bool,
    pub done: bool,
}

impl SessionView {
    /// The invariant every live session satisfies: the window list is
    /// non-empty and the selection indexes into it.
    pub open spec fn wf(self) -> bool {
        0 < self.entries.len() && 0 <= self.selected < self.entries.len()
    }
}

/// The selection after one cycle step of `delta` (+1 or -1), wrapping
/// in both directions modulo the window count `n`.
pub open spec fn spec_cycle(sel: int, delta: int, n: int) -> int
    recommends
        0 < n,
{
    (sel + delta) % n
}

/// One cycle step applied to a session: the selection moves by
/// `delta` modulo the window count, and the panel is redrawn exactly
/// when the selection actually changed.
pub open spec fn spec_cycle_step(v: SessionView, delta: int) -> (SessionView, SessionAction)
    recommends
        v.wf(),
{
    let next = spec_cycle(v.selected, delta, v.entries.len() as int);
    if next == v.selected {
        (v, SessionAction::Stay)
    } else {
        (
            SessionView { selected: next, ..v },
            SessionAction::Redraw,
        )
    }
}

/// The commit latch: the first finalize commits the selected window
/// and ends the session; any further finalize is a no-op, so the
/// focus commit fires at most once per session.
pub open spec fn spec_finalize(v: SessionView) -> (SessionView, SessionAction)
    recommends
        v.wf(),
{
    if v.finalized {
        (v, SessionAction::Stay)
    } else {
        (
            SessionView { finalized: true, done: true, ..v },
            SessionAction::Commit(v.entries[v.selected].id),
        )
    }
}

/// The complete transition function of an active session.
pub open spec fn spec_step(v: SessionView, ev: SessionEvent) -> (SessionView, SessionAction)
    recommends
        v.wf(),
{
    match ev {
        SessionEvent::Press(SessionKey::Tab) => spec_cycle_step(v, 1),
        SessionEvent::Press(SessionKey::ShiftTab) => spec_cycle_step(v, -1),
        SessionEvent::Press(SessionKey::Escape) => (
            SessionView { done: true, ..v },
            SessionAction::Cancel,
        ),
        SessionEvent::Press(SessionKey::Confirm) => spec_finalize(v),
        SessionEvent::Press(_) => (v, SessionAction::Stay),
        SessionEvent::Release(SessionKey::AltModifier) => spec_finalize(v),
        SessionEvent::Release(_) => (v, SessionAction::Stay),
        SessionEvent::ModifiersChanged(alt) => {
            let v2 = SessionView { alt_down: alt, ..v };
            if v.alt_down && !alt {
                spec_finalize(v2)
            } else {
                (v2, SessionAction::Stay)
            }
        },
        SessionEvent::Control(SwitcherControl::CycleNext) => spec_cycle_step(v, 1),
        SessionEvent::Control(SwitcherControl::CyclePrev) => spec_cycle_step(v, -1),
        SessionEvent::SurfaceClosed => (
            SessionView { done: true, ..v },
            SessionAction::Cancel,
        ),
    }
}

/// The recency history after the `Idle -> Active` transition: the
/// window reported as already focused at snapshot time is recorded,
/// strictly before ranking; without one the history is untouched.
pub open spec fn spec_started_history(h: Seq<u64>, ws: Seq<WindowEntry>) -> Seq<u64> {
    if spec_focused_id(ws) is Some {
        spec_update_on_focus(h, spec_focused_id(ws)->0)
    } else {
        h
    }
}

/// One interactive window-selection episode.
pub struct Session {
    entries: Vec<WindowEntry>,
    selected: usize,
    alt_down: bool,
    finalized: bool,
    done: bool,
}

impl View for Session {
    type V = SessionView;

    closed spec fn view(&self) -> SessionView {
        SessionView {
            entries: self.entries@,
            selected: self.selected as int,
            alt_down: self.alt_down,
            finalized: self.finalized,
            done: self.done,
        }
    }
}

impl Session {
    /// The `Idle -> Active` transition. An empty snapshot keeps the
    /// daemon idle and leaves the history untouched; otherwise the
    /// history is updated with the live-focused window, the list is
    /// ranked, and the initial selection is the second-ranked window
    /// when at least two windows exist, else the first.
    pub fn start(windows: Vec<WindowEntry>, mru: &mut MruState) -> (r: Option<Session>)
        ensures
            windows@.len() == 0 ==> r is None && final(mru)@ == old(mru)@,
            windows@.len() > 0 ==> {
                let h1 = spec_started_history(old(mru)@, windows@);
                &&& r is Some
                &&& final(mru)@ == h1
                &&& r->0@.entries == spec_order_windows(h1, windows@)
                &&& r->0@.selected == if windows@.len() > 1 {
                    1int
                } else {
                    0int
                }
                &&& !r->0@.alt_down
                &&& !r->0@.finalized
                &&& !r->0@.done
                &&& r->0@.wf()
            },
    {
        if windows.len() == 0 {
            return None;
        }
        let focused = find_focused(&windows);
        if let Some(id) = focused {
            mru.update_on_focus(id);
        }
        proof {
            lemma_order_windows_len(mru@, windows@);
        }
        let ranked = mru.order_windows(windows);
        let selected: usize = if ranked.len() > 1 {
            1
        } else {
            0
        };
        Some(
            Session {
                entries: ranked,
                selected,
                alt_down: false,
                finalized: false,
                done: false,
            },
        )
    }

    /// The ranked windows this session presents, in display order.
    pub fn entries(&self) -> (r: &Vec<WindowEntry>)
        ensures
            r@ == self@.entries,
    {
        &self.entries
    }

    /// The currently selected index.
    pub fn selected(&self) -> (r: usize)
        ensures
            r as int == self@.selected,
    {
        self.selected
    }

    /// Whether the session has ended (by commit or cancel).
    pub fn is_done(&self) -> (r: bool)
        ensures
            r == self@.done,
    {
        self.done
    }

    /// Whether the focus commit has already fired.
    pub fn is_finalized(&self) -> (r: bool)
        ensures
            r == self@.finalized,
    {
        self.finalized
    }

    /// Move the selection by `delta` (+1 or -1), wrapping in both
    /// directions; reports whether the panel must be redrawn.
    pub fn cycle(&mut self, delta: i32) -> (a: SessionAction)
        requires
            old(self)@.wf(),
            delta == 1 || delta == -1,
        ensures
            final(self)@ == spec_cycle_step(old(self)@, delta as int).0,
            a == spec_cycle_step(old(self)@, delta as int).1,
            final(self)@.wf(),
    {
        let n = self.entries.len();
        let ghost ni = n as int;
        let ghost si = self.selected as int;
        let next: usize = if delta == 1 {
            if self.selected + 1 == n {
                0
            } else {
                self.selected + 1
            }
        } else {
            if self.selected == 0 {
                n - 1
            } else {
                self.selected - 1
            }
        };
        proof {
            if delta == 1 {
                if si + 1 == ni {
                    lemma_mod_self_0(ni);
                } else {
                    lemma_small_mod((si + 1) as nat, ni as nat);
                }
            } else {
                if si == 0 {
                    lemma_fundamental_div_mod_converse_mod(0 - 1, ni, 0 - 1, ni - 1);
                } else {
                    lemma_small_mod((si - 1) as nat, ni as nat);
                }
            }
        }
        if next == self.selected {
            SessionAction::Stay
        } else {
            self.selected = next;
            SessionAction::Redraw
        }
    }

    /// Commit the current selection, guarded to fire at most once:
    /// the first call answers `Commit` with the selected window's id
    /// and ends the session; later calls change nothing.
    pub fn finalize(&mut self) -> (a: SessionAction)
        requires
            old(self)@.wf(),
        ensures
            final(self)@ == spec_finalize(old(self)@).0,
            a == spec_finalize(old(self)@).1,
            final(self)@.wf(),
    {
        if self.finalized {
            SessionAction::Stay
        } else {
            self.finalized = true;
            self.done = true;
            SessionAction::Commit(self.entries[self.selected].id)
        }
    }

    /// Consume one event and answer with the action the shell must
    /// perform.
    pub fn step(&mut self, ev: SessionEvent) -> (a: SessionAction)
        requires
            old(self)@.wf(),
        ensures
            final(self)@ == spec_step(old(self)@, ev).0,
            a == spec_step(old(self)@, ev).1,
            final(self)@.wf(),
    {
        match ev {
            SessionEvent::Press(k) => match k {
                SessionKey::Tab => self.cycle(1),
                SessionKey::ShiftTab => self.cycle(-1),
                SessionKey::Escape => {
                    self.done = true;
                    SessionAction::Cancel
                },
                SessionKey::Confirm => self.finalize(),
                _ => SessionAction::Stay,
            },
            SessionEvent::Release(k) => match k {
                SessionKey::AltModifier => self.finalize(),
                _ => SessionAction::Stay,
            },
            SessionEvent::ModifiersChanged(alt) => {
                let was = self.alt_down;
                self.alt_down = alt;
                if was && !alt {
                    self.finalize()
                } else {
                    SessionAction::Stay
                }
            },
            SessionEvent::Control(c) => match c {
                SwitcherControl::CycleNext => self.cycle(1),
                SwitcherControl::CyclePrev => self.cycle(-1),
            },
            SessionEvent::SurfaceClosed => {
                self.done = true;
                SessionAction::Cancel
            },
        }
    }
}

/// The selection after `k` forward cycle steps.
pub open spec fn spec_iter_cycle(sel: int, n: int, k: nat) -> int
    decreases k,
{
    if k == 0 {
        sel
    } else {
        spec_cycle(spec_iter_cycle(sel, n, (k - 1) as nat), 1, n)
    }
}

proof fn lemma_iter_cycle_mod(sel: int, n: int, k: nat)
    requires
        0 <= sel < n,
    ensures
        spec_iter_cycle(sel, n, k) == (sel + k) % n,
    decreases k,
{
    if k == 0 {
        lemma_small_mod(sel as nat, n as nat);
    } else {
        lemma_iter_cycle_mod(sel, n, (k - 1) as nat);
        assert(((sel + (k - 1)) % n + 1) % n == (sel + k) % n) by {
            if n == 1 {
                lemma_mod_bound(sel + (k - 1), 1);
                lemma_mod_bound((sel + (k - 1)) % 1 + 1, 1);
                lemma_mod_bound(sel + k, 1);
            } else {
                lemma_add_mod_noop(sel + (k - 1), 1, n);
                lemma_small_mod(1nat, n as nat);
            }
        }
    }
}

/// Cycling is a cyclic group action, first half: `n` forward cycle
/// steps, `n` the window count, return the selection to where it
/// started.
pub proof fn lemma_cycle_full_rotation(sel: int, n: int)
    requires
        0 <= sel < n,
    ensures
        spec_iter_cycle(sel, n, n as nat) == sel,
{
    lemma_iter_cycle_mod(sel, n, n as nat);
    lemma_add_mod_noop(sel, n, n);
    lemma_mod_self_0(n);
    lemma_small_mod(sel as nat, n as nat);
}

/// Cycling is a cyclic group action, second half: one step forward
/// then one step back (or back then forward) is a no-op on the
/// selection.
pub proof fn lemma_cycle_inverse(sel: int, n: int)
    requires
        0 <= sel < n,
    ensures
        spec_cycle(spec_cycle(sel, 1, n), -1, n) == sel,
        spec_cycle(spec_cycle(sel, -1, n), 1, n) == sel,
{
    assert(spec_cycle(spec_cycle(sel, 1, n), -1, n) == sel) by {
        if sel + 1 < n {
            lemma_small_mod((sel + 1) as nat, n as nat);
            lemma_small_mod(sel as nat, n as nat);
        } else {
            lemma_mod_self_0(n);
            lemma_fundamental_div_mod_converse_mod(0 - 1, n, 0 - 1, n - 1);
        }
    }
    assert(spec_cycle(spec_cycle(sel, -1, n), 1, n) == sel) by {
        if sel > 0 {
            lemma_small_mod((sel - 1) as nat, n as nat);
            lemma_small_mod(sel as nat, n as nat);
        } else {
            lemma_fundamental_div_mod_converse_mod(0 - 1, n, 0 - 1, n - 1);
            lemma_mod_self_0(n);
        }
    }
}

/// The session after `k` forward cycle steps.
pub open spec fn spec_iter_cycle_step(v: SessionView, k: nat) -> SessionView
    decreases k,
{
    if k == 0 {
        v
    } else {
        spec_cycle_step(spec_iter_cycle_step(v, (k - 1) as nat), 1).0
    }
}

proof fn lemma_iter_cycle_step_fields(v: SessionView, k: nat)
    requires
        v.wf(),
    ensures
        spec_iter_cycle_step(v, k) == (SessionView {
            selected: spec_iter_cycle(v.selected, v.entries.len() as int, k),
            ..v
        }),
        spec_iter_cycle_step(v, k).wf(),
    decreases k,
{
    if k > 0 {
        lemma_iter_cycle_step_fields(v, (k - 1) as nat);
        lemma_mod_bound(
            spec_iter_cycle(v.selected, v.entries.len() as int, (k - 1) as nat) + 1,
            v.entries.len() as int,
        );
    }
}

/// Cycling is a cyclic group action on a live session: applying
/// `cycle(+1)` as many times as there are windows returns the session
/// to its original state, and `cycle(+1)` followed by `cycle(-1)` is
/// a no-op.
pub proof fn lemma_session_cycle_laws(v: SessionView)
    requires
        v.wf(),
    ensures
        spec_iter_cycle_step(v, v.entries.len()) == v,
        spec_cycle_step(spec_cycle_step(v, 1).0, -1).0 == v,
{
    let n = v.entries.len() as int;
    lemma_iter_cycle_step_fields(v, v.entries.len());
    lemma_cycle_full_rotation(v.selected, n);
    assert(spec_iter_cycle_step(v, v.entries.len()) == v);
    lemma_cycle_inverse(v.selected, n);
    lemma_mod_bound(v.selected + 1, n);
}

} // verus!
