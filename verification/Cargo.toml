[package]
name = "tree_catalog"
version = "0.1.0"
edition = "2021"
publish = false

[dependencies]
calamine = "*"
serde = { version = "1", features = ["derive"] }
tokio = { version = "1", features = ["rt-multi-thread", "macros"] }
warp = "0.3"
