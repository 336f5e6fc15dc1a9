[package]
name = "rusty_ports"
version = "0.1.0"
edition = "2021"
publish = false

[dependencies]
itertools = "0.10"
log = "0.4"
async-std = "1"
futures = "0.3"
clap = "2"
simplelog = "0.8"
users = "0.11"
libc = "0.2"
thiserror = "1"
