[package]
name = "burn_e5q"
version = "0.1.0"
edition = "2021"
publish = false

[dependencies]
anyhow = "=1.0.104"
bytemuck = "=1.25.2"
llvm-sys = "*"
memory-stats = "=1.2.0"
ort = { version = ">=2.0.0-rc.10", default-features = false, features = ["std", "load-dynamic"] }
pliron = "*"
pliron-llvm = "*"
rayon = "=1.12.0"
sentencepiece-rs = "=0.2.2"
serde = { version = "=1.0.229", features = ["derive"] }
serde_json = "=1.0.154"
