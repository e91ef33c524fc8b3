[package]
name = "decipi"
version = "0.1.0"
edition = "2021"
publish = false

[dependencies]
anyhow = "=1.0.104"
argh = "=0.1.19"
blake3 = "=1.8.7"
chacha20 = "=0.9.1"
ed25519-dalek = { version = "=2.2.0", features = ["rand_core"] }
hex = "=0.4.3"
rand = "=0.8.8"
x25519-dalek = "=2.0.1"
wasmtime = "=46.0.3"
wasi-common = "=46.0.3"
