[package]
name = "mean_ci"
version = "0.1.0"
edition = "2021"
publish = false

[dependencies]
clap = { version = "*", features = ["derive"] }
regex = "*"
reqwest = "*"
scraper = "*"
special-fun = "*"
tokio = { version = "*", features = ["macros", "rt-multi-thread", "time"] }
