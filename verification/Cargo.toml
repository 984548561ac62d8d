[package]
name = "expr_compiler"
version = "0.1.0"
edition = "2021"
publish = false

[dependencies]
log = "*"
clap = { version = "*", features = ["derive"] }
colored = "*"
fern = "*"
thiserror = "*"
