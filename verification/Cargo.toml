[package]
name = "toybox"
version = "0.1.0"
edition = "2021"
publish = false

[dependencies]
rand = "=0.8.8"
chrono = "=0.4.45"
rayon = "=1.12.0"
quicksilver = { version = "=0.4.0", default-features = false, features = ["easy-log", "event-cache", "font", "saving", "ttf"] }
lettre = "=0.9.6"
lettre_email = "=0.9.4"
mime = "=0.3.17"
