[package]
name = "wander"
version = "0.1.0"
edition = "2021"
publish = false

[dependencies]
percent-encoding = "2"
serde = { version = "1", features = ["derive"] }
serde_json = "1"
ureq = "3"
glib = "*"
gio = "*"
gtk4 = { version = "*", features = ["v4_10"] }
libadwaita = { version = "*", features = ["v1_5"] }
webkit6 = "*"
