[package]
name = "lan_mouse"
version = "0.1.0"
edition = "2021"
publish = false

[dependencies]
wayland-client = "0.31"
wayland-protocols = { version = "0.32", features = ["client", "staging"] }
thiserror = "2"
log = "0.4"
rand = "0.9"
snow = "0.9"
