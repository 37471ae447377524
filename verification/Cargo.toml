[package]
name = "template_api"
version = "0.1.0"
edition = "2021"
publish = false

[dependencies]
bson = "2"
url = "2"
mongodb = "2"
tokio = { version = "1", features = ["macros", "rt-multi-thread"] }
