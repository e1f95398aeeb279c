[package]
name = "speech_segmenter"
version = "0.1.0"
edition = "2021"
publish = false

[dependencies]
base64 = "0.21"
ndarray = "*"
reqwest = { version = "0.12", features = ["json", "multipart"] }
serde = { version = "1", features = ["derive"] }
serde_json = "1"
symphonia = { version = "0.5", features = ["all"] }
uuid = { version = "1", features = ["v4"] }
voice_activity_detector = "*"
