[package]
name = "audiocore"
version = "0.1.0"
edition = "2021"
publish = false

[dependencies]
url = "*"
symphonia = { version = "=0.5.5", default-features = false, features = ["mp3", "pcm", "wav"] }
reqwest = { version = "=0.12.28", default-features = false }
tokio = { version = "*", features = ["macros", "rt"] }
