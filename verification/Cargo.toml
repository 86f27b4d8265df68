[package]
name = "inarybay"
version = "0.1.0"
edition = "2021"
publish = false

[dependencies]
proc-macro2 = "=1.0.107"
quote = "=1.0.47"
syn = { version = "=2.0.119", features = ["full"] }
genemichaels-lib = "=0.12.0"
futures = "=0.3.34"
