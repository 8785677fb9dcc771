//! Detect which services listen on the host's TCP ports: read the kernel's
//! and the tools' reports, merge and compare snapshots, and write them for
//! people.

pub mod darwin;
pub mod linux;
pub mod number;
pub mod port;
pub mod privilege;
pub mod snapshot;
pub mod text;

pub use port::{format_uptime, kill_args, sanitize, PortChange, PortInfo, ScanError};
pub use snapshot::{diff, scan, Watcher};
