[package]
name = "ferris_viewer"
version = "0.1.0"
edition = "2021"
publish = false

[dependencies]
flate2 = "=1.1.10"
iced = { version = "=0.14.0", default-features = false, features = ["tiny-skia", "image", "x11", "thread-pool"] }
rfd = { version = "=0.17.2", default-features = false, features = ["xdg-portal"] }
