[package]
name = "project_cleanup"
version = "0.1.0"
edition = "2021"
publish = false

[dependencies]
crossbeam = "*"
regex = "*"
structopt = "0.3"
dunce = "*"
yansi = "0.5"
term_size = "0.3"
