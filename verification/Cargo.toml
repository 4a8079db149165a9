[package]
name = "fq_data_broker"
version = "0.1.0"
edition = "2021"
publish = false

[dependencies]
anyhow = "=1.0.104"
ibapi = { version = "=5.0.0", default-features = false, features = ["sync"] }
ordered-float = "=5.5.0"
time = { version = "=0.3.55", features = ["macros"] }
