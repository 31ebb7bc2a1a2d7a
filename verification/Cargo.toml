[package]
name = "cbpv"
version = "0.1.0"
edition = "2021"
publish = false

[dependencies]
cranelift = "=0.123.20"
cranelift-jit = "=0.123.20"
cranelift-module = "=0.123.20"
enum-map = "=2.7.3"
strum = "=0.25.0"
strum_macros = "=0.25.3"
