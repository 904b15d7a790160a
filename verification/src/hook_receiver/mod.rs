//! Receiving hook events, and sending them.

pub mod bridge;
pub mod events;
pub mod server;

pub use events::HookEventKind;
pub use server::{HookReceiver, ReceivedHook};
