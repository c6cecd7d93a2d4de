[package]
name = "mypets"
version = "0.1.0"
edition = "2021"
publish = false

[dependencies]
mongodb-cursor-pagination = "=0.3.2"
mongodb = { version = "=2.8.2", features = ["tokio-sync"] }
bson = "=2.15.0"
juniper = "=0.14.2"
actix-web = "4"
actix-rt = "2"
chrono = "=0.4.45"
dotenv = "=0.15.0"
env_logger = "=0.7.1"
log = "=0.4.34"
serde = { version = "=1.0.229", features = ["derive"] }
serde_json = "=1.0.154"
uuid = { version = "=0.8.2", features = ["v4"] }
