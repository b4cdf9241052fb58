[package]
name = "kill_tree"
version = "0.1.0"
edition = "2021"
publish = false

[dependencies]
nix = { version = "0.27", features = ["signal"] }
clap = { version = "4", features = ["cargo"] }
