[package]
name = "study_app"
version = "0.1.0"
edition = "2021"
publish = false

[dependencies]
chrono = { version = "0.4", default-features = false, features = ["std", "clock", "serde"] }
serde = { version = "1", features = ["derive"] }
serde_json = "1"
sha2 = "*"
sqlx = { version = "*", default-features = false, features = ["sqlite", "runtime-tokio", "chrono", "macros", "derive", "migrate"] }
thiserror = "*"
uuid = { version = "1", features = ["v4"] }
