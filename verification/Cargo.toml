[package]
name = "qmbed"
version = "0.2.0"
edition = "2021"
publish = false

[dependencies]
num-bigint = "0.4"
num-complex = "0.4"
smallvec = "1"
chainrules-core = "*"
