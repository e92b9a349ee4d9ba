[package]
name = "cultist"
version = "0.1.0"
edition = "2021"
publish = false

[dependencies]
serde = { version = "=1.0.229", features = ["derive"] }
serde_json = "=1.0.154"
sha2 = "=0.10.9"
syn = { version = "=2.0.119", features = ["full", "visit", "extra-traits"] }
proc-macro2 = { version = "=1.0.107", features = ["span-locations"] }
walkdir = "=2.5.0"
