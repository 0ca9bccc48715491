[package]
name = "polylabel"
version = "0.1.0"
edition = "2021"
publish = false

[dependencies]
geo = "*"
libc = "*"
thiserror = "*"
num-traits = "*"
