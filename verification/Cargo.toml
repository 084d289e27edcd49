[package]
name = "perfbook"
version = "0.1.0"
edition = "2021"
publish = false

[dependencies]
libc = "0.2"
rayon = "1"
tokio = { version = "1", features = ["rt", "rt-multi-thread", "time", "macros"] }
