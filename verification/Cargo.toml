[package]
name = "gtether"
version = "0.1.0"
edition = "2021"
publish = false

[dependencies]
ahash = "0.8"
async-task = "4"
base64 = "0.22"
boxcar = "0.2"
chrono = "0.4"
crossbeam = "0.8"
notify = "8"
notify-debouncer-full = "0.5"
papaya = "0.2"
parking_lot = "0.12"
proc-macro2 = "1"
quote = "1"
regex = "1"
sha2 = "0.10"
slab = "0.4"
smol = "2"
syn = { version = "2", features = ["full"] }
tracing = "0.1"
