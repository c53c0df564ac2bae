[package]
name = "ttop"
version = "0.1.0"
edition = "2021"
publish = false

[dependencies]
anyhow = "1"
crossterm = "*"
libc = "0.2"
ratatui = "*"
sysinfo = "*"
