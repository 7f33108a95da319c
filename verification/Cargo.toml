[package]
name = "s3_explorer"
version = "0.1.0"
edition = "2021"
publish = false

[dependencies]
regex = "1"
serde = { version = "1", features = ["derive"] }
serde_json = "1"
chrono = "0.4"
dirs = "4"
platform-dirs = "0.3"
strmode = "1"
users = "0.11"
walkdir = "2"
time = "0.3"
zip = { version = "0.6", default-features = false, features = ["deflate", "time"] }
tokio = { version = "1", features = ["macros", "rt-multi-thread"] }
tokio-stream = "0.1"
aws-config = "0.51"
aws-types = "0.51"
aws-smithy-types = "0.51"
aws-sdk-s3 = "0.21"
aws-sdk-sts = "0.21"
