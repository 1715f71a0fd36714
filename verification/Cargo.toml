[package]
name = "breeze"
version = "0.1.0"
edition = "2021"
publish = false

[dependencies]
ropey = "1.6"
structopt = "0.3"
termion = "1.5"
