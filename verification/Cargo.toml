[package]
name = "diamem"
version = "0.1.0"
edition = "2021"
publish = false

[dependencies]
eframe = { version = "0.34", default-features = false, features = ["glow", "x11", "persistence", "default_fonts"] }
serde = { version = "1", features = ["derive"] }
mermaid-rs-renderer = "0.3"
resvg = "*"
usvg = "*"
