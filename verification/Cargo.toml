[package]
name = "firow_notepad"
version = "0.1.0"
edition = "2021"
publish = false

[dependencies]
serde = { version = "*", features = ["derive"] }
serde_json = "*"
notify = "*"
sha2 = "*"
encoding_rs = "*"
chrono = "*"
libc = "*"
trash = "*"
