[package]
name = "keywatch"
version = "0.1.0"
edition = "2021"
publish = false

[dependencies]
list_ordered_hashmap = "*"
parking_lot = "*"
tokio = { version = "1", features = ["sync", "time", "macros", "rt"] }
