[package]
name = "ranger"
version = "0.1.0"
edition = "2021"
publish = false

[dependencies]
rand = "0.8"
petgraph = "0.6"
jiff = "0.2"
lexopt = "0.3"
serde = { version = "1", features = ["derive"] }
serde_json = "1"
sqlx = { version = "0.8", default-features = false, features = ["runtime-tokio", "sqlite", "derive"] }
tokio = { version = "1", features = ["rt-multi-thread", "macros", "net"] }
axum = "0.8"
maud = { version = "0.27", features = ["axum"] }
xdg = "2"
