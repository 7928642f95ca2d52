[package]
name = "jelly_dedup"
version = "0.1.0"
edition = "2021"
publish = false

[dependencies]
shell-escape = "0.1"
serde = { version = "1", features = ["derive"] }
reqwest = { version = "0.12", default-features = false, features = ["json", "rustls-tls"] }
tokio = { version = "1", features = ["macros", "rt-multi-thread"] }
clap = { version = "4", features = ["derive", "env"] }
dotenv = "0.15"
