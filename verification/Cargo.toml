[package]
name = "samply"
version = "0.13.1"
edition = "2021"
publish = false

[dependencies]
byteorder = "1"
crossbeam-channel = "0.5"
heapless = "0.8"
itoa = "1"
libc = "0.2"
linux-perf-data = "*"
log = "0.4"
mio = { version = "1", features = ["os-ext", "os-poll"] }
num_cpus = "1"
