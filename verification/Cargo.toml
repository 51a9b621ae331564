[package]
name = "rustrl"
version = "0.2.0"
edition = "2021"
publish = false

[dependencies]
bracket-lib = { version = "0.8", features = ["serde"] }
serde = { version = "1", features = ["derive"] }
serde_json = "1"
specs = { version = "*", features = ["serde"] }
specs-derive = "*"
