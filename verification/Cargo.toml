[package]
name = "fs_ntfs"
version = "0.1.0"
edition = "2021"
publish = false

[dependencies]
am-fs-core = "*"
log = "0.4"
ntfs = "0.4"
