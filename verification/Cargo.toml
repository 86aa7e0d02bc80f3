[package]
name = "sokoban"
version = "0.1.0"
edition = "2021"
publish = false

[dependencies]
soukoban = "*"
nalgebra = "*"
siphasher = "*"
itertools = "*"
bitflags = "2"
serde = { version = "1", features = ["derive"] }
toml = "*"
rusqlite = { version = "*", features = ["bundled"] }
dirs = "*"
