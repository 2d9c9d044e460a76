[package]
name = "llm-harmony"
version = "0.1.0"
edition = "2021"
publish = false

[dependencies]
clap = { version = "4", features = ["derive"] }
libc = "0.2"
libproc = "*"
serde = { version = "1", features = ["derive"] }
serde_json = "1"
serde_yaml = "0.9"
sysinfo = "*"
toml = "*"
ureq = { version = "3", features = ["json"] }
walkdir = "2"
