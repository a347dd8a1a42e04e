[package]
name = "substruct"
version = "0.1.0"
edition = "2021"
publish = false

[dependencies]
heck = "*"
indexmap = "*"
proc-macro2 = "*"
quote = "*"
syn = "*"
