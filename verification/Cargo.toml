[package]
name = "transition"
version = "0.1.0"
edition = "2021"
publish = false

[dependencies]
unsigned-varint = "0.7"
syn = { version = "1", features = ["full", "visit-mut", "extra-traits"] }
darling = "0.14"
quote = "1"
proc-macro2 = "1"
