//! Keeps DNS resolution inside WSL2 guest environments synchronized with the
//! Windows host's currently-active network DNS configuration.
//!
//! The crate holds the synchronization engine: resolving the authoritative
//! DNS configuration from route and adapter snapshots, rendering it as a
//! POSIX resolver file, parsing the guest-management tool's distribution
//! listing, deciding how each distribution is patched and updated, and the
//! debounced trigger loop that coalesces bursts of route-change events.
//! Obtaining the snapshots, running the guest-management tool and the tray
//! user interface are host bindings that live outside this crate; they hand
//! plain values in and carry plain values out.

pub mod config;
pub mod dns;
pub mod resolv;
pub mod retry;
pub mod runner;
pub mod text;
pub mod update;
pub mod wsl;
pub mod wslconf;
