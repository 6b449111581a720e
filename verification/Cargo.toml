[package]
name = "bitrate_tree"
version = "0.1.0"
edition = "2021"
publish = false

[dependencies]
async-recursion = "1"
tokio = { version = "1", features = ["macros", "rt-multi-thread", "sync"] }
