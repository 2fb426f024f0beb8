[package]
name = "dust"
version = "0.1.0"
edition = "2021"
publish = false

[dependencies]
anyhow = "1"
clap = { version = "3", features = ["derive"] }
crossterm = "0.25"
kira = "0.5"
midir = "0.8"
midly = "0.5"
rand = "0.8"
serde = { version = "1", features = ["derive"] }
serde_yaml = "0.8"
thiserror = "1"
tui = "0.19"
