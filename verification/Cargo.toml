[package]
name = "minmux"
version = "0.1.0"
edition = "2021"
publish = false

[dependencies]
regex = "1"
libc = "0.2"
nix = "0.26"
mlua = { version = "0.9", features = ["lua54", "vendored"] }
clap = "2"
serde = { version = "1", features = ["derive"] }
serde_yaml = "0.9"
