[package]
name = "simple_notifier"
version = "0.1.0"
edition = "2021"
publish = false

[dependencies]
lettre = { version = "0.11", default-features = false, features = ["builder", "smtp-transport", "rustls-tls"] }
nix = { version = "*", features = ["time"] }
rand = "*"
regex = "1"
serde = { version = "1", features = ["derive"] }
serde_json = "1"
serde_yaml = "0.9"
ureq = "3"
