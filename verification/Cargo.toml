[package]
name = "diary"
version = "0.1.0"
edition = "2021"
publish = false

[dependencies]
axum = "*"
chrono = { version = "*", features = ["serde"] }
dotenv = "*"
serde = { version = "*", features = ["derive"] }
sqlx = { version = "*", default-features = false, features = ["mysql", "runtime-tokio", "chrono", "time"] }
time = { version = "*", features = ["serde"] }
tokio = { version = "*", features = ["macros", "rt-multi-thread", "net"] }
tower-http = { version = "*", features = ["cors"] }
tracing = "*"
tracing-subscriber = { version = "*", features = ["env-filter"] }
