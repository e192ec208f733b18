[package]
name = "gallerina"
version = "0.1.0"
edition = "2021"
publish = false

[dependencies]
async-recursion = "1"
async-std = { version = "1", features = ["unstable"] }
awaitgroup = "*"
chrono = { version = "0.4", features = ["serde"] }
env_logger = "*"
futures = { version = "0.3", features = ["thread-pool"] }
heed = "*"
http-types = "2"
kamadak-exif = "*"
log = "0.4"
magick_rust = "*"
num_cpus = "1"
parallel-stream = "*"
percent-encoding = "2"
serde = { version = "1", features = ["derive"] }
sqlx = { version = "0.8", default-features = false, features = ["sqlite", "runtime-async-std", "derive", "migrate"] }
structopt = "0.3"
tide = "0.16"
url = "2"
