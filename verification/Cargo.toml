[package]
name = "exhume_lvm"
version = "0.1.0"
edition = "2021"

[dependencies]
acid_io = { version = "*", features = ["std"] }
clap = "4"
clap-num = "*"
env_logger = "*"
exhume_body = "*"
log = "*"
prettytable-rs = "*"
