[package]
name = "totem_of_ket"
version = "0.1.0"
edition = "2021"
publish = false

[dependencies]
crossterm = "0.25"
tui = "0.19"
user_input = "*"

[dev-dependencies]
serde_json = "1"
