[package]
name = "restructure"
version = "0.1.0"
edition = "2021"
publish = false

[dependencies]
axum = "0.7"
chrono = "0.4"
fixedbitset = "0.4"
nom = "7"
petgraph = "0.6"
rustc-hash = "1.1"
serde = { version = "1", features = ["derive"] }
tokio = { version = "1", features = ["io-util", "macros", "net", "rt-multi-thread", "time"] }
tower-http = { version = "0.5", features = ["fs"] }
tracing = "0.1"
