[package]
name = "catalog_diagram"
version = "0.1.0"
edition = "2021"
publish = false

[dependencies]
clap = { version = "4", features = ["derive"] }
encoding_rs = "0.8"
fontdb = "*"
regex = "1"
resvg = "*"
roxmltree = "*"
serde = { version = "1", features = ["derive"] }
serde_json = "1"
tiny-skia = "*"
ttf-parser = "*"
usvg = "*"
