[package]
name = "item_write_lambda"
version = "0.1.0"
edition = "2021"
publish = false

[dependencies]
serde_json = "1"
serde = { version = "1", features = ["derive"] }
aws-config = "*"
aws-sdk-dynamodb = "*"
aws_lambda_events = "*"
lambda_runtime = "*"
tokio = { version = "1", features = ["macros", "rt"] }
tracing = "*"
tracing-subscriber = { version = "*", features = ["fmt", "json"] }
dotenvy = "*"
