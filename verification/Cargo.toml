[package]
name = "findfiles"
version = "0.1.0"
edition = "2021"
publish = false

[dependencies]
regex = "1"
clap = "2"
docopt = "1"
handlebars = "*"
rustc-serialize = "0.3"
memmap = "*"
nix = { version = "*", features = ["process"] }
