[package]
name = "latte_compiler"
version = "0.1.0"
edition = "2021"
publish = false

[dependencies]
colored = "*"
lalrpop-util = "*"
