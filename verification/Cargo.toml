[package]
name = "promql_search"
version = "0.1.0"
edition = "2021"
publish = false

[dependencies]
chrono = "0.4"
tokio = { version = "1", features = ["rt", "macros", "time"] }
futures = "0.3"
