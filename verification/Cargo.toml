[package]
name = "forge_core"
version = "0.1.0"
edition = "2021"
publish = false

[dependencies]
serde_json = "1"
pcre2 = "0.2"
mlua = { version = "0.10", features = ["lua54", "vendored"] }
crossbeam-channel = "0.5"
parking_lot = "0.12"
once_cell = "1"
log = "0.4"
libc = "0.2"
notify = "*"
