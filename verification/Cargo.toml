[package]
name = "fleetreach"
version = "0.1.0"
edition = "2021"
publish = false

[dependencies]
clap = { version = "4", features = ["derive"] }
cvss = "2"
rayon = "1"
semver = "1"
serde = { version = "1", features = ["derive"] }
serde_json = "1"
sha2 = "0.10"
tempfile = "3"
thiserror = "2"
time = { version = "0.3", features = ["formatting"] }
toml = "0.8"
ureq = "2"
walkdir = "2"
zip = { version = "2", default-features = false, features = ["deflate"] }
