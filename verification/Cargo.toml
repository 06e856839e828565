[package]
name = "system_usage_analyzer"
version = "0.1.0"
edition = "2021"
publish = false

[dependencies]
core-foundation = "0.10"
crossterm = "0.28"
sysinfo = "0.33"
thiserror = "2"
