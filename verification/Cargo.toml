[package]
name = "rusty_maze"
version = "0.1.0"
edition = "2021"
publish = false

[dependencies]
rand = "0.8"
serde = { version = "1", features = ["derive"] }
ron = "*"
structopt = "0.3"
termion = "*"
thiserror = "*"
