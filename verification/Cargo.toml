[package]
name = "shark"
version = "0.1.0"
edition = "2021"
publish = false

[dependencies]
regex = "1"
num-complex = "0.4"
colored = "2"
homedir = "*"
rustyline = "*"
