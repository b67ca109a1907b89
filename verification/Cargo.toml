[package]
name = "cidr_aggregator"
version = "0.1.0"
edition = "2021"
publish = false

[dependencies]
itertools = "*"
lazy_static = "*"
structopt = "*"
