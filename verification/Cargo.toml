[package]
name = "manview"
version = "0.1.0"
edition = "2021"
publish = false

[dependencies]
scraper = "*"
ego-tree = "*"
flate2 = "*"
thiserror = "*"
serde = { version = "1", features = ["derive"] }
serde_json = "1"
crossterm = "*"
