[package]
name = "init_cache"
version = "0.1.0"
edition = "2021"
publish = false

[dependencies]
clru = "=0.6.3"
eyre = "=0.6.14"
lazy_static = "=1.5.1"
parking_lot = "=0.12.5"
wasmer = "=7.0.1"
