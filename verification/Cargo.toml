[package]
name = "jterm1"
version = "0.1.0"
edition = "2021"
publish = false

[dependencies]
memchr = "=2.8.3"
unicode-width = "=0.2.3"
unicode-bidi = "=0.3.18"
unicode-bidi-mirroring = "=0.4.0"
regex = "=1.13.1"
fuzzy-matcher = "=0.3.7"
serde_json = "=1.0.154"
serde = { version = "=1.0.229", features = ["derive"] }
serde_yaml = "0.9"
log = "=0.4.35"
ureq = "=2.12.1"
nix = { version = "=0.29.0", features = ["process", "signal", "term"] }
gtk4 = "*"
libadwaita = "*"
vte4 = "*"
