[package]
name = "paras_inherent"
version = "0.1.0"
edition = "2021"
publish = false

[dependencies]
bitvec = "1.0.1"
rand = { version = "0.8.5", default-features = false }
rand_chacha = { version = "0.3.1", default-features = false }
syn = { version = "2.0", features = ["full", "extra-traits"] }
quote = "1.0"
proc-macro2 = "1.0"
