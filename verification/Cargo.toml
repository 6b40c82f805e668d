[package]
name = "bulked"
version = "0.1.0"
edition = "2021"
publish = false

[dependencies]
aho-corasick = "1"
atty = "0.2"
clap = { version = "4", features = ["derive"] }
csv = "1"
grep = "*"
ignore = "0.4"
miette = "7"
serde = { version = "1", features = ["derive"] }
serde_json = "1"
thiserror = "1"
tracing = "0.1"
tracing-subscriber = "0.3"
