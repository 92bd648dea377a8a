[package]
name = "change_to_rule"
version = "0.1.0"
edition = "2021"
publish = false

[dependencies]
getopts = "0.2"
