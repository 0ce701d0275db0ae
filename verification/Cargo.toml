[package]
name = "uefi_kernel"
version = "0.1.0"
edition = "2021"
publish = false

[dependencies]
bitfield-struct = "*"
r-efi = "*"
