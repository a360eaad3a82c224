[package]
name = "memview"
version = "0.1.0"
edition = "2021"
publish = false

[dependencies]
clap = { version = "4", features = ["derive"] }
colored = "2"
crossterm = "0.28"
diff = "0.1"
libc = "0.2"
ratatui = "0.29"
sysinfo = "0.33"
thiserror = "2"
