[package]
name = "mindcub3r"
version = "0.1.0"
edition = "2021"
publish = false

[dependencies]
ev3dev-rs = "*"
tokio = { version = "1", features = ["macros", "rt-multi-thread", "time"] }
nanoserde = "*"
phf = { version = "*", features = ["macros"] }
