[package]
name = "mini_haskell"
version = "0.1.0"
edition = "2021"
publish = false

[dependencies]
ucd-util = "0.1"
unic-ucd-category = "0.9"
num-bigint = "0.4"
num-integer = "0.1"
num-traits = "0.2"
syn = { version = "1", features = ["full"] }
quote = "1"
proc-macro2 = "1"
clap = "2"
logos = "0.12"
