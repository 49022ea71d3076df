[package]
name = "kernel"
version = "0.1.0"
edition = "2021"
publish = false

[dependencies]
lazy_static = "1"
multiboot2 = "*"
slab_allocator = "*"
spin = "*"
uart_16550 = "*"
volatile = "0.2"
x86_64 = { version = "*", default-features = false, features = ["instructions"] }
