[package]
name = "beast_parser"
version = "0.1.0"
edition = "2021"
publish = false

[dependencies]
adsb_deku = "=0.7.1"
clap = { version = "=4.6.7", features = ["derive"] }
hex = "=0.4.3"
ratatui = "=0.30.2"
rsadsb_common = "=0.7.0"
time = { version = "=0.3.55", features = ["formatting"] }
tracing = "=0.1.44"
