[package]
name = "coop_executor"
version = "0.1.0"
edition = "2021"
publish = false

[dependencies]
atomic-polyfill = "1.0"
embedded-hal = "1.0"
