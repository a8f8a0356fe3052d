[package]
name = "argus"
version = "0.1.0"
edition = "2021"
publish = false

[dependencies]
chrono = "0.4"
itertools = "0.10"
log = "0.4"
pest = "2"
pest_derive = "2"
rand = "0.8"
stderrlog = "0.5"
structopt = "0.3"

[dev-dependencies]
byteorder = "1"
