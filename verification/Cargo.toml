[package]
name = "mini_spv_node"
version = "0.1.0"
edition = "2021"
publish = false

[dependencies]
num-bigint = "0.4"
num-traits = "0.2"
sha2 = "0.10"
hex = "0.4"
thiserror = "1"
