[package]
name = "webscraper"
version = "0.3.1"
edition = "2021"
publish = false

[dependencies]
url = "2"
select = "0.5"
futures = "0.3"
tokio = { version = "0.2", features = ["macros", "rt-threaded", "time"] }
tokio-postgres = "0.5"
postgres = "0.17"
reqwest = { version = "0.10", default-features = false, features = ["stream", "rustls-tls"] }
structopt = "0.3"
