[package]
name = "scope_stats"
version = "0.1.0"
edition = "2021"
publish = false

[dependencies]
puffin = "0.19"
egui = { version = "0.27", default-features = false }
serde = { version = "1", features = ["derive"] }
