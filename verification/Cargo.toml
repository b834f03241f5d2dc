[package]
name = "pazi"
version = "0.1.0"
edition = "2021"
publish = false

[dependencies]
snailquote = "*"
libc = "*"
termion = "*"
crossbeam-channel = "*"
signal-hook = "*"
directories = "*"
which = "*"
tempfile = "*"
