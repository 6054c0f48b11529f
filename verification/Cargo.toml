[package]
name = "one_forty_nine_solver"
version = "0.1.0"
edition = "2021"

[dependencies]
clap = { version = "4", features = ["cargo"] }
colored = "2"
