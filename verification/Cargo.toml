[package]
name = "logseq_view"
version = "0.2.0"
edition = "2021"
publish = false

[dependencies]
anyhow = "1"
crossterm = "0.28"
ratatui = "0.29"
unicode-width = "0.2"
walkdir = "2"
