[package]
name = "screeps_os"
version = "0.1.0"
edition = "2021"
publish = false

[dependencies]
screeps-game-api = "*"
wasm-bindgen = "0.2"
js-sys = "0.3"
web-sys = { version = "0.3", features = ["console"] }
rkyv = { version = "0.7", features = ["validation"] }
bytecheck = "0.6"
log = "0.4"
fern = "0.6"
