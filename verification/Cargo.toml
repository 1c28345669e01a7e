[package]
name = "abs_expr"
version = "0.1.1"
edition = "2021"
publish = false

[dependencies]
proc-macro2 = "=1.0.107"
quote = "=1.0.47"
