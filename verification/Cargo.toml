[package]
name = "y4_clipboard"
version = "0.1.0"
edition = "2021"
publish = false

[dependencies]
md5 = "*"
libc = "*"
ctrlc = "*"
rusqlite = { version = "*", features = ["bundled"] }
wayland-client = "*"
wayland-protocols = { version = "*", features = ["client", "staging"] }
