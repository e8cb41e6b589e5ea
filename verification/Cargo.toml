[package]
name = "rect_estimator"
version = "0.1.0"
edition = "2021"
publish = false

[dependencies]
rand = "0.9"
rayon = "1"
serde = { version = "1", features = ["derive"] }
actix-web = "4"
actix-files = "0.6"
shuttle-actix-web = "*"
shuttle-runtime = "*"
