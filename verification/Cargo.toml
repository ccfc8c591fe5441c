[package]
name = "tsh"
version = "0.1.0"
edition = "2021"
publish = false

[dependencies]
clap = { version = "4", features = ["derive"] }
errno = "0.3"
nix = { version = "0.29", features = ["signal", "process"] }
signal-hook = "0.3"
