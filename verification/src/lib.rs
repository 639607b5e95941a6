//! Multi-monitor RDP launching that survives changing monitor numbers.

pub mod casing;
pub mod config;
pub mod connect;
pub mod decode;
pub mod detect;
pub mod hosts;
pub mod launch_file;
pub mod listing;
pub mod monitor;
pub mod number;
pub mod placement;
pub mod profile;
pub mod rdp;
pub mod relocate;
pub mod session;
pub mod table;
pub mod text;
