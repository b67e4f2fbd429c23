[package]
name = "sat_solver"
version = "0.1.0"
edition = "2021"
publish = false

[dependencies]
dimacs = "*"
clap = { version = "4", features = ["derive"] }
tokio = { version = "1", features = ["rt", "rt-multi-thread", "time", "macros"] }
