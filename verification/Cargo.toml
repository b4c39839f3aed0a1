[package]
name = "component_names"
version = "0.1.0"
edition = "2021"
publish = false

[dependencies]
semver = { version = "1", features = ["serde"] }
serde = { version = "1", features = ["derive"] }
wasmparser = "=0.261.0"
