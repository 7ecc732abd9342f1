[package]
name = "hsmc"
version = "0.2.0"
edition = "2021"
publish = false

[dependencies]
syn = { version = "2", features = ["full", "extra-traits"] }
quote = "1"
proc-macro2 = "1"
tokio = { version = "1", features = ["rt", "sync", "time", "macros"] }
embassy-futures = "*"
embassy-sync = "*"
embassy-time = "*"
heapless = "*"
