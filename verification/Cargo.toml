[package]
name = "mmove"
version = "0.1.0"
edition = "2021"
publish = false

[dependencies]
postgres = "*"
id3 = "*"
fs_extra = "*"
rand = "*"
log = "*"
