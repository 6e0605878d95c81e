[package]
name = "hydra"
version = "0.1.0"
edition = "2021"
publish = false

[dependencies]
rand = "=0.8.8"
chrono = "=0.4.45"
anyhow = "=1.0.104"
tokio = { version = "1", features = ["rt", "rt-multi-thread", "sync", "time", "macros"] }
tokio-util = "0.7"
serde = { version = "1", features = ["derive"] }
serde_dynamo = { version = "=4.3.0", features = ["aws-sdk-dynamodb+1"] }
aws-sdk-dynamodb = "=1.130.0"
aws-sdk-kinesis = "=1.125.0"
