[package]
name = "ledgerstats"
version = "0.1.0"
edition = "2021"
publish = false

[dependencies]
anyhow = "1"
clap = "2.34"
itertools = "0.10"
thiserror = "1"
