[package]
name = "encrypt_files"
version = "0.1.0"
edition = "2021"
publish = false

[dependencies]
aws-config = { version = "*", default-features = false }
aws-sdk-s3 = { version = "*", default-features = false }
chacha20poly1305 = "=0.10.1"
dotenv = "0.15"
hex = "=0.4.3"
lambda_http = { version = "*", default-features = false, features = ["apigw_http"] }
rand = "=0.8.8"
tokio = { version = "*", features = ["macros", "rt"] }
tracing = "0.1"
tracing-subscriber = "0.3"
