[package]
name = "rhh_trace"
version = "0.1.0"
edition = "2021"
publish = false

[dependencies]
timely_sort = "*"
