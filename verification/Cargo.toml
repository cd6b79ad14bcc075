[package]
name = "ngx_balancer_rs"
version = "0.1.0"
edition = "2021"
publish = false

[dependencies]
ngx = { version = "=0.5.1", features = ["vendored"] }
