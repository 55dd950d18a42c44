[package]
name = "atomic_exec"
version = "0.1.0"
edition = "2021"
publish = false

[dependencies]
blake2b_simd = "1"

[dev-dependencies]
serde_cbor = "0.11"
cid = "0.6"
multihash = "0.11"
