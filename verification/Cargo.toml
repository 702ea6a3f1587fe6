[package]
name = "dupdirs"
version = "0.1.0"
edition = "2021"
publish = false

[dependencies]
crc32fast = "1"
humanize-rs = "0.1"
structopt = "0.3"
walkdir = "2"
