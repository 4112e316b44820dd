[package]
name = "tangle"
version = "0.1.0"
edition = "2021"
publish = false

[dependencies]
memchr = "2"
pulldown-cmark = { version = "*", default-features = false }
structopt = "0.3"
