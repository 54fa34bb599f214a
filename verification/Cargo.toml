[package]
name = "ip_extract"
version = "0.1.0"
edition = "2021"
publish = false

[dependencies]
reqwest = { version = "*", default-features = false }
tokio = { version = "*", features = ["macros", "rt-multi-thread"] }
zip = { version = "*", default-features = false, features = ["deflate"] }
