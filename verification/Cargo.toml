[package]
name = "query_log"
version = "0.1.0"
edition = "2021"
publish = false

[dependencies]
chrono = { version = "0.4", default-features = false, features = ["std"] }
itertools = "0.10"
hyper = "0.12"
futures = "0.1"
rouste = "*"
serde_json = "1"
url = "*"
percent-encoding = "*"
