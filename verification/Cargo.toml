[package]
name = "mikan_kernel"
version = "0.1.0"
edition = "2021"
publish = false

[dependencies]
bit_field = "=0.10.3"
byteorder = "=1.5.0"
x86_64 = { version = "=0.15.5", default-features = false, features = ["instructions"] }
uefi = "=0.41.0"
elf_rs = "=0.3.1"
