[package]
name = "ribboncurls"
version = "0.4.1"
edition = "2021"
publish = false

[dependencies]
anyhow = "1"
clap = "4"
html-escape = "0.2"
regex = "1"
serde_yaml = "0.9"
thiserror = "1"
