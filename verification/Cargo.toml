[package]
name = "multiarchi"
version = "0.1.0"
edition = "2021"
publish = false

[dependencies]
rand = "=0.8.8"
scraper = "=0.29.0"
serenity = "=0.12.5"
sqlx = { version = "=0.8.6", features = ["sqlite", "runtime-tokio"] }
tokio = { version = "=1.54.1", features = ["rt-multi-thread", "macros", "time"] }
reqwest = "=0.12.28"
chrono = "=0.4.45"
dotenvy = "=0.15.7"
google-sheets4 = { version = "=7.0.0", features = ["yup-oauth2-service-account"] }
rustls = "=0.23.46"
serde_json = "=1.0.154"
