[package]
name = "rqmc"
version = "0.1.0"
edition = "2021"
publish = false

[dependencies]
itertools = "*"
log = "0.4"
log4rs = "1"
structopt = "0.3"
