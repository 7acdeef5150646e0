[package]
name = "dhondt_calc"
version = "0.1.0"
edition = "2021"
publish = false

[dependencies]
clap = { version = "*", features = ["derive"] }
csv = "*"
serde = { version = "*", features = ["derive"] }
cursive = "*"
cursive_table_view = "*"
clipboard = "*"
