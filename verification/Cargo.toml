[package]
name = "diff2html"
version = "0.1.0"
edition = "2021"
publish = false

[dependencies]
seahash = "*"
v_htmlescape = "*"
clap = "2"
handlebars = "*"
serde = { version = "1", features = ["derive"] }
serde_json = "1"
