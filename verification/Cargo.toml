[package]
name = "lifts"
version = "0.1.0"
edition = "2021"
publish = false

[dependencies]
rand = "=0.8.8"
clap = { version = "=4.6.7", features = ["derive"] }
crossterm = "=0.27.0"
ratatui = "=0.30.2"
tui-textarea = "=0.4.0"
