[package]
name = "freedesktop_desktop_entry"
version = "0.1.0"
edition = "2021"
publish = false

[dependencies]
mime_guess = "2"
xdg = "3"
