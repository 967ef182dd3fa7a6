[package]
name = "rasa"
version = "0.1.0"
edition = "2021"
publish = false

[dependencies]
rand = "*"
rand_distr = "*"
csv = "*"
spin_sleep = "*"
tracing = "*"
tracing-subscriber = "*"
