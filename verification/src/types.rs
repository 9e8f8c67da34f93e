//! Shared data model: compositor identities, normalized window
//! records, and the per-session window entries the selection UI
//! operates on.

use vstd::prelude::*;

verus! {

/// Closed set of compositor identities. Only `Niri` and `Hyprland`
/// have working adapters; the others are recognized by configuration
/// parsing but every adapter operation on them fails with
/// [`AdapterError::NotSupported`].
#[derive(Clone, Copy, Debug, PartialEq, Eq, Structural)]
pub enum BackendKind {
    Niri,
    Sway,
    Hyprland,
    Kwin,
    Gnome,
}

impl BackendKind {
    /// True exactly for the backends that have a working adapter.
    pub fn has_adapter(&self) -> (r: bool)
        ensures
            r == (*self == BackendKind::Niri || *self == BackendKind::Hyprland),
    {
        match self {
            BackendKind::Niri => true,
            BackendKind::Hyprland => true,
            _ => false,
        }
    }
}

/// Normalized window record, produced fresh on every enumeration
/// call: an opaque 64-bit handle, an optional identifying string used
/// for icon lookup, and whether the compositor reports the window as
/// focused.
#[derive(Clone, Debug, PartialEq, Eq)]
pub struct BackendWindow {
    pub id: u64,
    pub app_id: Option<String>,
    pub is_focused: bool,
}

/// Opaque handle to a rasterized icon. The icon layer outside this
/// crate resolves an `app_id` to an image and hands back a slot
/// number; the core only carries it through to the presentation
/// layer.
#[derive(Clone, Copy, Debug, PartialEq, Eq, Structural)]
pub struct IconHandle {
    pub slot: u64,
}

/// A [`BackendWindow`] joined with its resolved icon handle: the
/// transient per-session view the selection UI operates on.
#[derive(Clone, Copy, Debug, PartialEq, Eq, Structural)]
pub struct WindowEntry {
    pub id: u64,
    pub is_focused: bool,
    pub icon: IconHandle,
}

/// Failures surfaced by the backend adapters. Errors inside a session
/// never propagate past the session boundary: a session that fails to
/// enumerate or focus simply aborts and the daemon returns to idle.
#[derive(Debug, PartialEq, Eq)]
pub enum AdapterError {
    /// Operation invoked against a `BackendKind` with no adapter.
    NotSupported,
    /// The structured-IPC backend answered with a protocol-level
    /// error message.
    Protocol(String),
    /// The CLI backend's query output was not the expected JSON array.
    BadJson,
}

} // verus!
