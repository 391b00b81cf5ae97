[package]
name = "allocator-memfd-secret"
version = "0.1.0"
edition = "2021"
publish = false

[dependencies]
allocator-api2 = "*"
libc = "0.2"
linked_list_allocator = "0.10"
spin = "*"
