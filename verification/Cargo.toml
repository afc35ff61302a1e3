[package]
name = "disktracker"
version = "0.1.0"
edition = "2021"
publish = false

[dependencies]
anyhow = "1"
chrono = { version = "0.4", features = ["serde"] }
clap = { version = "4", features = ["derive"] }
crossbeam-deque = "0.8"
crossbeam-utils = "0.8"
ctrlc = "3"
dirs = "*"
futures = "0.3"
hostname = "*"
indicatif = "*"
keyring = { version = "3", default-features = false }
libc = "0.2"

num_cpus = "1"
reqwest = { version = "0.12", default-features = false, features = ["json", "stream"] }
rusqlite = { version = "*", features = ["bundled"] }
rust-langgraph = "*"
rustix = { version = "*", features = ["fs"] }
serde = { version = "1", features = ["derive"] }
serde_json = "1"
tantivy = { version = "*", default-features = false, features = ["mmap"] }
tokio = { version = "1", features = ["full"] }
toml = "*"
urlencoding = "2"
websearch = "*"
