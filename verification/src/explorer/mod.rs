//! Browsing files, here and on remote machines.

pub mod base64;
pub mod download;
pub mod listing;
pub mod local;
pub mod path_guard;
pub mod preview;
pub mod remote;
pub mod ripgrep;
pub mod source;
pub mod types;
