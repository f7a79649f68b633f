[package]
name = "sendstream_fs"
version = "0.1.0"
edition = "2021"
publish = false

[dependencies]
sendstream_parser = "*"
uuid = "*"
walkdir = "*"
xattr = "*"
thiserror = "*"
