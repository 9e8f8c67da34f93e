//! Core engine of a Wayland window-switcher daemon.
//!
//! The crate holds the pieces of the daemon that decide rather than
//! perform: most-recently-used ranking of windows, the interactive
//! selection session, the control-socket wire protocol, the adapters
//! that normalize two compositor protocols into one window model, the
//! hotkey chord tracker, desktop-entry text reading, and the panel
//! layout arithmetic. Process bootstrapping, socket and input-device
//! I/O, icon rasterization and surface presentation live outside, in
//! the thin shell that drives this crate.

pub mod backend;
pub mod config;
pub mod desktop;
pub mod hotkey;
pub mod mru;
pub mod panel;
pub mod protocol;
pub mod session;
pub mod types;
