[package]
name = "udpcast"
version = "1.0.0"
edition = "2021"
publish = false

[dependencies]
clap = { version = "4", features = ["derive"] }
libc = "0.2"
nix = { version = "0.30", features = ["fs", "poll", "socket", "term", "time"] }
socket2 = { version = "0.5", features = ["all"] }
