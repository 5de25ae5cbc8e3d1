[package]
name = "blitze"
version = "0.1.0"
edition = "2021"
publish = false

[dependencies]
sled = "*"
flate2 = "*"
tar = "*"
fuse = "*"
libc = "*"
time = "0.1"
notify = "*"
log = "*"
simplelog = "*"
