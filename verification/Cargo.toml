[package]
name = "type_layout"
version = "0.1.0"
edition = "2021"
publish = false

[dependencies]
syn = "1"
quote = "1"
proc-macro2 = "1"
