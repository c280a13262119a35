[package]
name = "namegen"
version = "0.1.0"
edition = "2021"
publish = false

[dependencies]
roxmltree = "=0.21.2"
markov = { version = "=1.1.0", default-features = false }
oorandom = "=11.1.5"
random-pick = "*"
clap = "=2.34.0"
