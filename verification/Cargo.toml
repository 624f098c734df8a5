[package]
name = "dromon"
version = "0.1.0"
edition = "2021"
publish = false

[dependencies]
anyhow = "1"
ash = "0.38"
color-eyre = "0.6"
ctrlc = "3"
glam = "0.29"
ratatui = "0.29"
rustc-hash = "2"
winit = "0.30"
