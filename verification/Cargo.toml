[package]
name = "wordle"
version = "0.1.0"
edition = "2021"
publish = false

[dependencies]
atty = "0.2"
clap = "3"
colored = "2"
rand = "0.8"
read_line = "*"
serde = "1"
serde_derive = "1"
serde_json = "1"
text_io = "0.1"
