//! Verified core of the conductor: transcript archive, ssh plumbing and file explorer.

pub mod agent;
pub mod archive;
pub mod bytes;
pub mod calendar;
pub mod cli;
pub mod desktop;
pub mod digest;
pub mod explorer;
pub mod hook_receiver;
pub mod hook_setup;
pub mod json;
pub mod number;
pub mod order;
pub mod pathname;
pub mod shell;
pub mod split;
pub mod sshkit;
pub mod text;
