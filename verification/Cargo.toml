[package]
name = "zipvoice-rs"
version = "0.1.0"
edition = "2021"
publish = false

[dependencies]
byteorder = "1"
half = "2"
hound = "3.5"
num-complex = "0.4"
rubato = "0.16"
rustfft = "6"
serde = { version = "1", features = ["derive"] }
serde_json = "1"
thiserror = "2"
