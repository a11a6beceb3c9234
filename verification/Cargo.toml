[package]
name = "future2_utils"
version = "0.1.0"
edition = "2021"
publish = false

[dependencies]
utf16string = "0.2"
clap = { version = "4", features = ["derive"] }
image = { version = "0.25", default-features = false, features = ["png", "bmp"] }
