[package]
name = "credits"
version = "0.1.0"
edition = "2021"
publish = false

[dependencies]
chrono = "=0.4.45"
dotenv = "=0.15.0"
env_logger = "=0.11.11"
log = "=0.4.34"
postgres = "=0.19.14"
r2d2 = "=0.8.10"
r2d2_postgres = "=0.18.2"
serde = { version = "=1.0.229", features = ["derive"] }
serde_json = "=1.0.151"
stopwatch = "=0.0.7"
uuid = { version = "=1.27.0", features = ["v4", "serde"] }
