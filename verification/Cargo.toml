[package]
name = "h3_pool"
version = "0.1.0"
edition = "2021"
publish = false

[dependencies]
http = "*"
bytes = "*"
h3 = "*"
h3-quinn = "*"
tower = "*"
sync_wrapper = "*"
