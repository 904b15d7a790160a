[package]
name = "ccc"
version = "0.1.0"
edition = "2021"
publish = false

[dependencies]
anyhow = "=1.0.104"
axum = "=0.7.9"
clap = { version = "=4.6.7", features = ["derive"] }
dashmap = "=6.2.1"
fontdb = "=0.24.0"
libc = "=0.2.191"
lindera = { version = "=6.2.0", default-features = false }
lindera-dictionary = { version = "=6.2.0", default-features = false }
rand = "=0.8.8"
rusqlite = { version = "=0.32.1", features = ["bundled"] }
serde = { version = "=1.0.229", features = ["derive"] }
serde_json = "=1.0.154"
sha2 = "=0.10.9"
tokio = { version = "=1.54.1", features = ["macros", "net", "rt-multi-thread", "sync", "time"] }
ureq = { version = "=2.12.1", default-features = false, features = ["json"] }
zstd = "=0.13.4"
