[package]
name = "recm2tv"
version = "0.1.0"
edition = "2021"
publish = false

[dependencies]
aes = "0.8"
cipher = "0.4"
sha1 = "0.10"
rusb = "0.9"
clap = { version = "4", features = ["derive"] }
ctrlc = "3"
thiserror = "1"
