[package]
name = "cinit"
version = "0.1.0"
edition = "2021"
publish = false

[dependencies]
caps = "*"
chrono = "*"
clap = "*"
libc = "*"
log = "*"
log4rs = "*"
nix = { version = "*", features = ["user", "process", "signal", "socket", "event", "term", "fs", "ioctl", "feature", "poll", "uio", "time", "env", "hostname"] }
petgraph = "*"
serde = { version = "*", features = ["derive"] }
serde_yaml = "*"
tera = "*"
