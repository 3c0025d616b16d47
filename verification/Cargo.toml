[package]
name = "clonehero_maker"
version = "0.1.0"
edition = "2021"
publish = false

[dependencies]
anyhow = "1"
clap = { version = "4", features = ["derive"] }
image = { version = "0.25", default-features = false, features = ["png", "jpeg", "gif", "bmp", "webp", "tiff"] }
lofty = "0.22"
midly = "0.5"
symphonia = { version = "0.5", features = ["mp3"] }
thiserror = "2"
