[package]
name = "puyo_match"
version = "0.1.0"
edition = "2021"
publish = false

[dependencies]
logru = "=0.2.0"
calamine = "=0.22.1"
