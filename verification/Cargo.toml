[package]
name = "launchr"
version = "0.1.0"
edition = "2021"
publish = false

[dependencies]
gio-unix = "*"
gtk4 = { version = "*", features = ["v4_12"] }
gtk4-layer-shell = "*"
libc = "0.2"
rustix = { version = "1", features = ["fs", "mm"] }
serde = { version = "1", features = ["derive"] }
serde_json = "1"
wayland-client = "0.31"
wayland-protocols-wlr = { version = "0.3", features = ["client"] }
