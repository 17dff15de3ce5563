[package]
name = "kernel_core"
version = "0.1.0"
edition = "2021"
publish = false

[dependencies]
bootloader = { version = "=0.9.35", features = ["map_physical_memory"] }
x86_64 = "0.15"
spin = "=0.9.9"
volatile = "=0.2.7"
lazy_static = "=1.5.1"
