[package]
name = "guitar_pedal"
version = "0.1.0"
edition = "2021"
publish = false

[dependencies]
ringbuf = "0.2"
hound = "3"
jack = "0.9"
structopt = "0.3"
