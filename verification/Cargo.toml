[package]
name = "kanpig"
version = "0.1.0"
edition = "2021"
publish = false

[dependencies]
petgraph = "0.6"
itertools = "0.12"
noodles-vcf = "*"
clap = { version = "4", features = ["derive"] }
log = "0.4"
pretty_env_logger = "0.5"
