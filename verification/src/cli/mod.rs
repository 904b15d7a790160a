//! The command-line tools: what their arguments ask for, and what they print.

pub mod auth;
pub mod memory;
pub mod sessions;
pub mod ssh;
pub mod train;
