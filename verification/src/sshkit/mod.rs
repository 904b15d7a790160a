//! Shared ssh connections: configuration, forwards, the agent socket and the health of a master.

pub mod agent_socket;
pub mod exec;
pub mod forwards;
pub mod heal;
pub mod liveness;
pub mod paths;
pub mod ssh_config;
