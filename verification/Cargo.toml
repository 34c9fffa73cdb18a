[package]
name = "rs_kvstore_vals2ql"
version = "0.1.0"
edition = "2021"
publish = false

[dependencies]
async-graphql = { version = "*", features = ["dataloader"] }
async-trait = "*"
deadpool-redis = "*"
tokio = { version = "*", features = ["rt"] }
