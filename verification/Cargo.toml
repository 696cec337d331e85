[package]
name = "tea_core"
version = "0.1.0"
edition = "2021"
publish = false

[dependencies]
guillotiere = "=0.6.2"
uuid = { version = "=1.29.0", features = ["v4"] }
parking_lot = "=0.12.5"
lru = "=0.19.0"
thiserror = "=2.0.21"
tokio = { version = "=1.54.1", default-features = false, features = ["rt"] }
wgpu = { version = "=30.0.1", default-features = false, features = ["wgsl"] }
dashmap = "6"
fxhash = "0.2"
