[package]
name = "beats"
version = "0.1.0"
edition = "2021"
publish = false

[dependencies]
cpal = "0.15"
hound = "3"
log = "0.4"
rayon = "1"
rustfft = "6"
serde = { version = "1", features = ["derive"] }
serde_json = "1"
symphonia = { version = "0.5", features = ["mp3"] }
tiny-skia = "0.11"
tokio = { version = "1", features = ["rt", "rt-multi-thread", "sync", "time"] }
