[package]
name = "forensic-adb"
version = "0.1.0"
edition = "2021"
publish = false

[dependencies]
bstr = "=1.13.1"
log = "=0.4.35"
once_cell = "=1.21.4"
regex = "=1.13.1"
thiserror = "=1.0.69"
tokio = { version = "=1.54.1", features = ["fs", "io-util", "net", "rt", "macros"] }
unix_path = "=1.0.1"
unix_str = "=1.0.0"
uuid = { version = "=1.29.0", features = ["v4"] }
walkdir = "=2.5.0"
