[package]
name = "relm4"
version = "0.1.0"
edition = "2021"
publish = false

[dependencies]
gtk4 = "0.3"
