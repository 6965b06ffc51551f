[package]
name = "filetrail"
version = "0.1.0"
edition = "2021"
publish = false

[dependencies]
anyhow = "1"
blake3 = "1"
clap = { version = "4", features = ["derive"] }
clap_complete = "4"
ctrlc = "3"
dirs = "6"
fs2 = "0.4"
git2 = { version = "0.20", default-features = false, features = ["vendored-libgit2"] }
globset = "0.4"
notify = "8"
rusqlite = { version = "*", features = ["bundled"] }
serde = { version = "1", features = ["derive"] }
shlex = "1"
tempfile = "3"
toml = "*"
walkdir = "2"
