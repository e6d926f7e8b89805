[package]
name = "kheap"
version = "0.1.0"
edition = "2021"
publish = false

[dependencies]
aarch64-cpu = "=11.2.0"
async-trait = "=0.1.92"
bitflags = "=2.13.2"
fdt-parser = "=0.4.19"
log = "=0.4.34"
tock-registers = "=0.10.1"
