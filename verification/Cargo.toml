[package]
name = "floppy_mac"
version = "0.1.0"
edition = "2021"
publish = false

[dependencies]
fatfs = "0.3"
libc = "0.2"
log = "0.4"
env_logger = "0.11"
fuser = { version = "0.18", default-features = false }
serialport = { version = "4", default-features = false }
