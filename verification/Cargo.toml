[package]
name = "key_rotate"
version = "0.1.0"
edition = "2021"
publish = false

[dependencies]
dirs = "*"
aws-config = "*"
aws-sdk-iam = "*"
clap = "*"
tokio = { version = "*", features = ["macros", "rt-multi-thread"] }
