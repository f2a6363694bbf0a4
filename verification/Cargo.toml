[package]
name = "angora_search"
version = "0.1.0"
edition = "2021"
publish = false

[dependencies]
indexmap = "=2.14.2"

[dev-dependencies]
crossbeam-utils = "0.8"
