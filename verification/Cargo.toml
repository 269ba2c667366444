[package]
name = "braid_server"
version = "0.1.0"
edition = "2021"
publish = false

[dependencies]
getrandom = "0.3"
libc = "0.2"
rustix = { version = "1", features = ["fs", "net", "process", "event", "pty", "termios"] }
thiserror = "2"
