[package]
name = "sqfs"
version = "0.1.0"
edition = "2021"
publish = false

[dependencies]
flate2 = "1"
zstd = "*"
indexmap = "2"
chrono = "0.4"
bstr = "1"
positioned-io = "*"
parking_lot = "0.12"
once_cell = "1"
num_cpus = "1"
crossbeam-channel = "0.5"
thiserror = "1"
slog = "2"
slog-stdlog = "4"
libc = "0.2"
byteorder = "1"
