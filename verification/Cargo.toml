[package]
name = "mind_core"
version = "0.1.0"
edition = "2021"
publish = false

[dependencies]
linked_list_allocator = "*"
uefi = "=0.27.0"
