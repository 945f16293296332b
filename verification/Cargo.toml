[package]
name = "diskscan"
version = "0.1.0"
edition = "2021"
publish = false

[dependencies]
crc = "3"
byte-unit = "4"
log = "*"
inotify = "*"
nix = "*"
proc-mounts = "*"
