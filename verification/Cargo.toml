[package]
name = "uwb_delay_test"
version = "0.1.0"
edition = "2021"
publish = false

[dependencies]
clap = { version = "4", features = ["derive"] }
crossbeam-channel = "0.5"
ctrlc = "3"
serialport = { version = "4", default-features = false }
