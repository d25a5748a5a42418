[package]
name = "custom_terminal"
version = "0.1.0"
edition = "2021"
publish = false

[dependencies]
crossterm = "0.28.1"
ratatui = { version = "0.29.0", features = ["scrolling-regions", "unstable-backend-writer", "unstable-widget-ref"] }
tracing = "0.1"
unicode-width = "0.2"
