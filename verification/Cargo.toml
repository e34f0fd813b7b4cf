[package]
name = "fizzbee_mbt"
version = "0.1.0"
edition = "2021"
publish = false

[dependencies]
tokio = { version = "=1.53.2", features = ["rt-multi-thread", "process", "signal", "sync", "net", "time", "io-util", "macros"] }
futures = "=0.3.34"
