[package]
name = "lisp_prims"
version = "0.1.0"
edition = "2021"
publish = false

[dependencies]
num-bigint = "=0.4.8"
num-traits = "=0.2.19"
rustc_apfloat = "0.2"

[dev-dependencies]
float-cmp = "=0.10.0"
