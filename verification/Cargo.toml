[package]
name = "s3_client"
version = "0.1.0"
edition = "2021"
publish = false

[dependencies]
aes-gcm = "0.10"
base64 = "0.22"
semver = "1"
mime_guess = "2"
serde = { version = "1", features = ["derive"] }
uuid = { version = "1", features = ["v4"] }
rusqlite = { version = "*", features = ["bundled"] }
tokio = { version = "1", features = ["full"] }
tokio-util = "0.7"
aws-config = { version = "1", features = ["behavior-version-latest"] }
aws-sdk-s3 = "1"
aws-smithy-types = "1"
reqwest = { version = "0.12", features = ["json"] }
url = "2"
