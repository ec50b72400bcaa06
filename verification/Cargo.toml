[package]
name = "ccr_enclave"
version = "0.1.0"
edition = "2021"
publish = false

[dependencies]
serde = { version = "1", features = ["derive"] }
serde_json = "1"
serde_cbor = "0.11"
rusty-machine = "0.5"
sgx_types = "*"
sgx_tseal = "*"
sgx_tstd = "*"
sgx_urts = "*"
