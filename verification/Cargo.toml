[package]
name = "pydoc-gen"
version = "0.1.0"
edition = "2021"
publish = false

[dependencies]
rustpython-parser = "*"
serde = { version = "1", features = ["derive"] }
serde_yml = "*"
tera = { version = "1", default-features = false }
clap = { version = "4", features = ["derive"] }
