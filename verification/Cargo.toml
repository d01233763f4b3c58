[package]
name = "defguard_core"
version = "1.4.0"
edition = "2021"
publish = false

[dependencies]
chrono = "0.4"
ipnetwork = "0.20"
serde = { version = "1", features = ["derive"] }
sqlx = { version = "0.8", default-features = false, features = ["postgres", "runtime-tokio", "chrono", "ipnetwork", "derive"] }

[dev-dependencies]
rand = "0.8"
