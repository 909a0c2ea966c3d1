[package]
name = "coc_base_generator"
version = "0.1.0"
edition = "2021"
publish = false

[dependencies]
ab_glyph = "=0.2.32"
image = { version = "=0.25.10", default-features = false, features = ["png"] }
imageproc = { version = "=0.25.1", default-features = false }
rand = "=0.8.8"
tokio = { version = "=1.54.1", features = ["rt-multi-thread", "macros"] }
wgpu = "0.20"
