[package]
name = "tileproc"
version = "0.1.0"
edition = "2021"
publish = false

[dependencies]
clap = { version = "*", features = ["derive"] }
colored = "*"
glob = "*"
image = { version = "*", default-features = false, features = ["png", "jpeg"] }
