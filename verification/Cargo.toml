[package]
name = "logmerge"
version = "0.1.0"
edition = "2021"
publish = false

[dependencies]
chrono = "0.4"
crossterm = "0.25"
futures = "0.3"
log = "0.4"
log4rs = "1"
tokio = { version = "1", features = ["rt-multi-thread", "macros"] }
tui = "0.19"
