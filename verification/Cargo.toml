[package]
name = "mfa_creds"
version = "0.1.0"
edition = "2021"
publish = false

[dependencies]
aws-config = "*"
aws-sdk-sts = "*"
dirs = "*"
figment = { version = "*", features = ["toml"] }
serde = { version = "*", features = ["derive"] }
structopt = "*"
tokio = { version = "*", features = ["macros", "rt-multi-thread"] }
