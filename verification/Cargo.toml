[package]
name = "eip_board"
version = "0.1.0"
edition = "2021"
publish = false

[dependencies]
eipw-preamble = "=0.4.0"
chrono = "=0.4.45"
octocrab = "=0.47.1"
tokio = { version = "=1.53.2", features = ["macros", "rt-multi-thread"] }
reqwest = { version = "=0.13.5", default-features = false }
