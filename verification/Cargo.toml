[package]
name = "rexgen"
version = "0.1.0"
edition = "2021"
publish = false

[dependencies]
num-bigint = "0.4"
regex = "1"
regex-syntax = "0.8"
clap = "4"
clap_complete = "4"
thiserror = "*"
