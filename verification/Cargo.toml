[package]
name = "ihi"
version = "0.0.44"
edition = "2021"
publish = false

[dependencies]
blake3 = { version = "=1.8.7", features = ["pure"] }
sha2 = "=0.10.9"
sha3 = "=0.10.9"
i256 = "=0.2.5"
vsf = { version = "=0.4.2", features = ["text-encode"] }
