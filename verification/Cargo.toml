[package]
name = "snippets_everywhere"
version = "0.1.0"
edition = "2021"
publish = false

[dependencies]
itertools = "0.13"
unicode-segmentation = "1"
anyhow = "1"
clap = "4"
json5 = "0.4"
serde = { version = "1", features = ["derive"] }
serde_json = "1"
thiserror = "1"
