[package]
name = "meowrouter"
version = "0.1.0"
edition = "2021"
publish = false

[dependencies]
riscv = "*"

[dev-dependencies]
rand = "0.8"
