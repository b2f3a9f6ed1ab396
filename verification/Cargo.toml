[package]
name = "gitv"
version = "0.1.0"
edition = "2021"
publish = false

[dependencies]
clap = { version = "4", default-features = false, features = ["std", "derive", "help", "usage", "error-context"] }
git2 = { version = "0.19", default-features = false }
iced = { version = "0.13", default-features = false, features = ["tiny-skia"] }
