[package]
name = "civilis"
version = "0.1.0"
edition = "2021"
publish = false

[dependencies]
url = "*"
psl = "*"
scraper = "*"
clap = { version = "*", features = ["derive"] }
tokio = { version = "*", features = ["macros", "rt-multi-thread", "signal"] }
reqwest = { version = "*", default-features = false }
async-recursion = "*"
