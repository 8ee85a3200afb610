[package]
name = "spatiax"
version = "0.1.0"
edition = "2021"
publish = false

[dependencies]
crc = "=3.4.0"
clap = { version = "=4.6.7", features = ["derive"] }
thiserror = "=2.0.21"
socketcan = "=3.6.2"
chrono = { version = "=0.4.45", default-features = false, features = ["now"] }
num_cpus = "=1.17.0"
crossbeam = "=0.8.5"
ringbuf = "=0.3.3"
uuid = { version = "1", features = ["v4"] }
