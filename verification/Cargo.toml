[package]
name = "parrot_rs"
version = "0.1.0"
edition = "2021"
publish = false

[dependencies]
crossbeam = "*"
directories = "*"
indextree = "*"
os_pipe = "*"
regex = "*"
sanitize-filename = "*"
serde = { version = "*", features = ["derive"] }
serde_indextree = "*"
serde_json = "*"
utf8-chars = "*"
walkdir = "*"
