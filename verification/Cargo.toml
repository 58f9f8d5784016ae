[package]
name = "lwpdf"
version = "0.1.0"
edition = "2021"
publish = false

[dependencies]
skrifa = "*"
ttf-parser = "*"
miniz_oxide = "*"
hyphenation = { version = "0.8.4", features = ["embed_all"] }
serde = { version = "1", features = ["derive"] }
serde_json = "1"
schemars = "1"
base64 = "0.22"
clap = { version = "4", features = ["derive"] }
png = "*"
