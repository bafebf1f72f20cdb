[package]
name = "querybot"
version = "0.1.0"
edition = "2021"
publish = false

[dependencies]
anyhow = "=1.0.104"
clap = { version = "=4.6.7", features = ["derive"] }
clap-verbosity-flag = "=3.0.4"
csv_to_table = "=0.11.0"
poise = "=0.7.0"
reqwest = { version = "=0.12.28", default-features = false, features = ["rustls-tls"] }
tabled = "=0.22.0"
tokio = { version = "=1.53.2", features = ["macros", "rt-multi-thread"] }
tracing = "=0.1.44"
tracing-subscriber = "=0.3.23"
url = "=2.5.8"
