[package]
name = "redlinedb"
version = "0.1.0"
edition = "2021"
publish = false

[dependencies]
anyhow = "1"
clap = { version = "4", features = ["derive"] }
crossbeam-utils = "0.8"
fail = { version = "0.5", features = ["failpoints"] }
hdrhistogram = { version = "7", default-features = false }
libc = "0.2"
rand = "0.9"
rand_chacha = "0.9"
rusqlite = "0.32"
serde = { version = "1", features = ["derive"] }
serde_json = "1"
sha2 = "0.10"
smallvec = "1"
tempfile = "3"
toml = "0.8"
