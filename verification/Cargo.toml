[package]
name = "file_sort"
version = "0.1.0"
edition = "2021"
publish = false

[dependencies]
clap = "2"
stopwatch = "*"
uuid = { version = "0.8", features = ["v4"] }
