[package]
name = "jenkins"
version = "0.1.0"
edition = "2021"
publish = false

[dependencies]
base64 = "*"
serde_json = "*"
regex = "*"
reqwest = { version = "*", default-features = false, features = ["json"] }
tokio = { version = "*", features = ["macros", "rt-multi-thread", "time", "sync", "signal"] }
clap = "*"
dialoguer = "*"
serde = { version = "*", features = ["derive"] }
toml = "*"
dirs = "*"
quick-xml = "*"
crossterm = "*"
