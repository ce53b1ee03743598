[package]
name = "pest_vm"
version = "0.1.0"
edition = "2021"

[dependencies]
pest = "*"
pest_meta = "*"
