[package]
name = "mamu_search"
version = "0.1.0"
edition = "2021"
publish = false

[dependencies]
bplustree = "*"
memchr = "2"
nix = { version = "*", features = ["feature"] }
rand = "0.8"
rayon = "1"
tokio = { version = "1", features = ["rt", "rt-multi-thread", "sync", "time", "macros"] }
anyhow = "1"
log = "0.4"
lazy_static = "1"
jni = "0.21"
obfstr = "0.4"
