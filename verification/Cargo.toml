[package]
name = "awwsy"
version = "0.1.0"
edition = "2021"
publish = false

[dependencies]
convert_case = "*"
chrono = "*"
nanoid = "*"
serde = { version = "*", features = ["derive"] }
serde_json = "*"
thiserror = "*"
tracing = "*"
lazy_static = "*"
async_once = "*"
aws-config = "*"
aws-sdk-dynamodb = "*"
aws-sdk-s3 = "*"
aws-sdk-sqs = "*"
aws-sdk-polly = "*"
aws-sdk-rekognition = "*"
aws_lambda_events = "*"
