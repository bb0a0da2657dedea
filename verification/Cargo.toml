[package]
name = "depth_listing"
version = "0.1.0"
edition = "2021"
publish = false

[dependencies]
object_store = "*"
tokio = { version = "*", features = ["rt"] }
