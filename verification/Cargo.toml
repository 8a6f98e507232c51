[package]
name = "html_case"
version = "0.1.0"
edition = "2021"
publish = false

[dependencies]
kuchikiki = "=0.8.2"
html5ever = "=0.26.0"
actix-web = "=4.18.1"
serde = { version = "=1.0.229", features = ["derive"] }
thiserror = "=1.0.69"
