[package]
name = "soletra"
version = "0.1.0"
edition = "2021"
publish = false

[dependencies]
rand = "=0.9.5"
feruca = "=0.13.0"
itertools = "=0.15.0"
app_dirs2 = "=2.5.5"
async-channel = "=2.5.0"
async-compat = "=0.2.6"
color-eyre = "=0.6.5"
crossterm = { version = "=0.29.0", features = ["event-stream"] }
ratatui = { version = "=0.30.2", features = ["unstable-rendered-line-info"] }
reqwest = { version = "=0.12.28", default-features = false, features = ["rustls-tls"] }
rust-i18n = "=3.1.5"
serde = { version = "=1.0.229", features = ["derive"] }
serde_json = "=1.0.154"
smol = "=2.0.2"
tachyonfx = "=0.25.2"
throbber-widgets-tui = "=0.11.1"
tui-overlay = "=0.1.2"
tui-scrollview = "=0.6.8"
