[package]
name = "spectrogram"
version = "0.1.0"
edition = "2021"
publish = false

[dependencies]
realfft = "=3.5.0"
rustfft = "=6.4.1"
rand = "=0.9.5"
image = { version = "=0.25.10", default-features = false, features = ["png"] }
rodio = { version = "=0.21.1", default-features = false, features = ["flac", "mp3", "mp4", "vorbis", "wav", "wav_output"] }
