[package]
name = "flash_font"
version = "0.1.0"
edition = "2021"
publish = false

[dependencies]
camino = "=1.2.6"
chardetng = "=0.1.17"
encoding_rs = "=0.8.44"
ttf-parser = "=0.25.1"
walkdir = "=2.5.0"
memmap2 = "=0.9.12"
rayon = "=1.12.0"
serde = { version = "=1.0.229", features = ["derive"] }
toml = "=0.9.8"
clap = { version = "=4.6.7", features = ["derive"] }
thiserror = "=2.0.21"
anyhow = "=1.0.104"
etcetera = "=0.11.0"
inquire = "=0.9.4"
diesel = { version = "=2.3.14", features = ["sqlite"] }
libsqlite3-sys = { version = "=0.38.2", features = ["bundled"] }
notify-rust = "=4.18.2"
libc = "=0.2.191"
widestring = "1"
windows = { version = "=0.62.2", features = ["Win32_Foundation", "Win32_Graphics_Gdi", "Win32_UI_WindowsAndMessaging"] }
