[package]
name = "window_funnel"
version = "0.1.0"
edition = "2021"
publish = false

[dependencies]
bytes = "1"
sqlparser = "*"
async-trait = "0.1"
