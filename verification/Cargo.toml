[package]
name = "object_archiver"
version = "0.1.0"
edition = "2021"
publish = false

[dependencies]
async-compression = { version = "=0.4.51", features = ["tokio", "xz"] }
aws-sdk-s3 = { version = "=1.155.0", default-features = false, features = ["rt-tokio", "behavior-version-latest"] }
aws-smithy-http-client = { version = "=1.5.1", features = ["rustls-aws-lc"] }
aws-smithy-runtime-api = { version = "=1.19.1", features = ["client"] }
aws-types = "=1.7.0"
chrono = "=0.4.45"
clap = { version = "=4.6.7", features = ["derive"] }
futures = "=0.3.34"
hickory-resolver = "=0.25.2"
mimalloc = "=0.1.52"
tokio = { version = "=1.54.1", features = ["full"] }
tokio-tar = "=0.3.1"
