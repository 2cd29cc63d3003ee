[package]
name = "hledger_tools"
version = "0.1.0"
edition = "2021"
publish = false

[dependencies]
chrono = "0.4"
time = "0.3"
rust_decimal = "1"
yahoo_finance_api = "*"
anyhow = "1"
clap = { version = "4", features = ["derive", "env"] }
figment = { version = "0.10", features = ["toml"] }
serde = { version = "1", features = ["derive"] }
tokio = { version = "1", features = ["macros", "rt-multi-thread"] }
