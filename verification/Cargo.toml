[package]
name = "rinha"
version = "0.1.0"
edition = "2021"
publish = false

[dependencies]
anyhow = "1"
libc = "0.2"
memmap2 = "0.9"
monoio = "0.2"
rayon = "1"
socket2 = "0.5"
