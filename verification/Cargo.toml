[package]
name = "matlib"
version = "0.1.0"
edition = "2021"
publish = false

[dependencies]
bincode = "1"
crossterm = "=0.29.0"
ethnum = "=1.5.3"
proc-macro2 = "1"
quote = "1"
serde = { version = "1", features = ["derive"] }
sorted-vec = "=0.8.11"
syn = { version = "2", features = ["full"] }
ux = "=0.1.6"
