[package]
name = "course_evolver"
version = "0.1.0"
edition = "2021"
publish = false

[dependencies]
rand = "0.9"
tokio = { version = "1", features = ["rt", "rt-multi-thread", "sync"] }
macroquad = "0.4"
