[package]
name = "pymemprofile_api"
version = "0.1.0"
edition = "2021"
publish = false

[dependencies]
ahash = "0.8"
backtrace = "0.3"
cgroups-rs = "0.2"
flume = "0.11"
im = "15"
inferno = { version = "0.11", default-features = false }
itertools = "0.10"
lazy_static = "1"
libc = "0.2"
libloading = "0.8"
once_cell = "1"
parking_lot = "0.12"
psutil = "3"
pyo3 = { version = "0.22", features = ["auto-initialize"] }
sysinfo = "0.20"
