[package]
name = "leaves"
version = "0.1.0"
edition = "2021"
publish = false

[dependencies]
glob-set = "=0.1.0"
humansize = "=2.1.3"
thousands = "=0.2.0"
typed-path = "=0.13.0"
ratatui = "=0.30.2"
crossterm = "=0.29.0"
tui-tree-widget = "=0.24.1"
colorgrad = { version = "=0.9.0", features = ["preset", "named-colors"] }
crossbeam-channel = "=0.5.17"
dirs = "=7.0.0"
toml = "=1.1.8"
serde = { version = "=1.0.229", features = ["derive"] }
redb = "=4.4.0"
arboard = { version = "=3.7.0", default-features = false }

[dev-dependencies]
ignore = "=0.4.34"
