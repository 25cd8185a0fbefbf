[package]
name = "fast_set"
version = "0.1.0"
edition = "2021"
publish = false

[dependencies]
roaring = { version = "*", default-features = false }
nohash = "0.2"
fxhash = "0.2"
rustc-hash = "*"
static_init = "1"

[dev-dependencies]
rand = "0.9"
