[package]
name = "string_column"
version = "0.1.0"
edition = "2021"
publish = false

[dependencies]
arrow = { version = "=60.0.0", default-features = false }
either = "=1.19.0"
clap = { version = "=4.6.7", features = ["env"] }
dotenv = "=0.15.0"
tokio = { version = "=1.54.1", features = ["rt", "rt-multi-thread"] }
tracing = "=0.1.44"
