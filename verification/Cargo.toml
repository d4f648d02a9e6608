[package]
name = "kokoro_rs"
version = "0.1.0"
edition = "2021"
publish = false

[dependencies]
anyhow = "1"
clap = { version = "4", features = ["derive"] }
cpal = "*"
ctrlc = "3"
espeak-rs = "*"
flate2 = "1"
hound = "3"
ndarray = "*"
ndarray-npy = "*"
ort = { version = "2.0.0-rc.10", default-features = false, features = ["std", "load-dynamic"] }
tar = "0.4"
ureq = "3"
