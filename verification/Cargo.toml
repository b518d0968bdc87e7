[package]
name = "harden"
version = "0.1.0"
edition = "2021"
publish = false

[dependencies]
goblin = "*"
clap = { version = "*", features = ["derive"] }
atty = "*"
serde = { version = "*", features = ["derive"] }
serde_dhall = "*"
log = "*"
stderrlog = "*"
