[package]
name = "mbss"
version = "0.1.0"
edition = "2021"
publish = false

[dependencies]
anyhow = "*"
dotenvy = "*"
git2 = { version = "*", default-features = false }
reqwest = { version = "*", default-features = false, features = ["json"] }
serde = { version = "*", features = ["derive"] }
serde_json = "*"
tokio = { version = "*", features = ["rt-multi-thread", "macros", "fs", "process", "io-util"] }
tracing = "*"
tracing-subscriber = { version = "*", features = ["env-filter", "fmt"] }
zip = { version = "*", default-features = false, features = ["deflate"] }
