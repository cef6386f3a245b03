[package]
name = "tok"
version = "0.1.0"
edition = "2021"
publish = false

[dependencies]
cyber-tru = "=0.1.1"
cyber-hemera = "=0.3.1"
