[package]
name = "disk_panel"
version = "0.1.0"
edition = "2021"
publish = false

[dependencies]
gtk4 = "0.7"
sysinfo = { version = "0.29", default-features = false }
