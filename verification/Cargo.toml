[package]
name = "bean_context"
version = "0.1.0"
edition = "2021"
publish = false

[dependencies]
async-trait = "0.1"
crossbeam = "0.8"
once_cell = "1"
thiserror = "1"
