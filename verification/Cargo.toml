[package]
name = "yaffs2_fuse"
version = "0.1.0"
edition = "2021"
publish = false

[dependencies]
dashmap = "*"
fuser = "*"
memmap2 = "*"
clap = { version = "*", features = ["derive"] }
log = "*"
env_logger = "*"
