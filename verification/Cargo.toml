[package]
name = "erhino_kernel"
version = "0.1.0"
edition = "2021"
publish = false

[dependencies]
buddy_system_allocator = "*"
dtb_parser = "*"
elf_rs = "*"
flagset = "*"
hashbrown = "*"
lock_api = "*"
num-derive = "*"
num-traits = "*"
riscv = "*"
semver = "*"
strum = "*"
tar-no-std = "*"
