[package]
name = "nucleon"
version = "0.1.0"
edition = "2021"
publish = false

[dependencies]
argparse = "0.2"
log = "0.3"
mio = "0.4"
redis = "0.5"
