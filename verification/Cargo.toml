[package]
name = "pa_extend"
version = "0.1.0"
edition = "2021"
publish = false

[dependencies]
pa-types = "*"
