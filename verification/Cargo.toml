[package]
name = "veto"
version = "0.1.0"
edition = "2021"
publish = false

[dependencies]
regex = "1"
aho-corasick = "1"
flate2 = "1"
time = { version = "0.3", features = ["parsing"] }
anyhow = "1"
clap = { version = "4", features = ["derive", "env"] }
crossbeam-channel = "0.5"
ctrlc = "3"
notify = "6"
serde = { version = "1", features = ["derive"] }
toml = "0.8"
humantime = "2"
log = "0.4"
pretty_env_logger = "0.5"
dotenvy = "0.15"
which = "6"
