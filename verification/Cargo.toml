[package]
name = "linux_cmd_dashboard"
version = "0.1.1"
edition = "2021"
publish = false

[dependencies]
anyhow = "1"
dirs = "*"
serde = { version = "1", features = ["derive"] }
toml = "*"
gtk4 = "*"
libadwaita = { version = "*", features = ["v1_4"] }
vte4 = "*"
