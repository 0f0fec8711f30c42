[package]
name = "sevenz"
version = "0.1.0"
edition = "2021"
publish = false

[dependencies]
ego-tree = { version = "*", features = ["serde"] }
lru = "*"
notify = "*"
notify-debouncer-full = "*"
regex = "1"
serde = { version = "1", features = ["derive"] }
thiserror = "*"
time = { version = "0.3", features = ["parsing", "serde"] }
time-tz = { version = "2", features = ["system"] }
toml = "*"
trash = "*"
unicode-normalization = "*"
walkdir = "2"
