[package]
name = "cache_aware_router"
version = "0.1.0"
edition = "2021"
publish = false

[dependencies]
dashmap = "6.1"
rand = "0.9"
tracing = "0.1"
