[package]
name = "synac_client"
version = "0.1.0"
edition = "2021"
publish = false

[dependencies]
chrono = "0.4"
failure = "0.1"
gdk = "0.8"
gtk = { version = "0.4", features = ["v3_22"] }
notify-rust = "4"
pango = "0.4"
pulldown-cmark = "0.1"
rusqlite = "*"
xdg = "2"
