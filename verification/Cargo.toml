[package]
name = "embedded_gc"
version = "0.1.0"
edition = "2021"
publish = false

[dependencies]
cortex-m-rt = "*"
cortex-m-semihosting = "*"
linked_list_allocator = "0.10"
panic-halt = "*"
