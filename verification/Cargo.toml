[package]
name = "codex_prompt_history"
version = "0.15.0"
edition = "2021"
publish = false

[dependencies]
anyhow = "1"
arboard = "3"
chrono = "0.4"
clap = { version = "4", features = ["derive"] }
crossterm = { version = "0.29", features = ["osc52"] }
ratatui = "0.30"
serde_json = "1"
textwrap = "0.16"
unicode-segmentation = "1"
unicode-width = "0.2"
