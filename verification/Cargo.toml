[package]
name = "stock_market"
version = "0.1.0"
edition = "2021"
publish = false

[dependencies]
chrono = "0.4"
clap = { version = "4", features = ["derive"] }
log = "0.4"
log4rs = "1"
plotters = "0.3"
tokio = { version = "1", features = ["macros", "rt-multi-thread"] }
yahoo_finance_api = "*"
