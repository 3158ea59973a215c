[package]
name = "moet"
version = "0.1.0"
edition = "2021"
publish = false

[dependencies]
async-channel = "2"
chrono = "0.4"
glib = "0.20"
gtk4 = "0.9"
libc = "0.2"
notify = "8"
regex = "1"
toml = "0.8"
vte4 = "0.8"

[dev-dependencies]
tempfile = "3"
