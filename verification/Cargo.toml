[package]
name = "update_sync"
version = "0.1.0"
edition = "2021"
publish = false

[dependencies]
anyhow = "=1.0.104"
bstr = "=1.13.1"
clap = { version = "=4.6.7", features = ["derive"] }
dunce = "=1.0.5"
filetime = "=0.2.29"
ignore = "=0.4.34"
walkdir = "=2.5.0"
