[package]
name = "forest"
version = "0.1.0"
edition = "2021"
publish = false

[dependencies]
nanoid = "*"
chrono = "*"
clap = { version = "*", features = ["derive"] }
sqlx = { version = "*", default-features = false, features = ["sqlite", "runtime-tokio"] }
tokio = { version = "*", features = ["rt-multi-thread", "macros"] }
xdg = "*"
edit = "*"
