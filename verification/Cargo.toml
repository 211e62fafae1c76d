[package]
name = "video_presenter"
version = "0.1.0"
edition = "2021"
publish = false

[dependencies]
anyhow = "1"
clap = { version = "4", features = ["derive"] }
libmpv = "2"
winit = "0.28"
winit_input_helper = "0.14"
