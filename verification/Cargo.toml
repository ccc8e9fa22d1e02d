[package]
name = "dtrace_collapse"
version = "0.1.0"
edition = "2021"
publish = false

[dependencies]
symbolic-demangle = { version = "*", default-features = false, features = ["rust"] }
crossbeam = "*"
log = "*"
