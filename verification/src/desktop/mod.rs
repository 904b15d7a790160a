//! What the desktop program decides: when to pull and archive, and what its commands answer.

pub mod flights;
pub mod service;
pub mod titles;
pub mod archive_commands;
pub mod cli_install;
pub mod env_setup;
pub mod commands;
