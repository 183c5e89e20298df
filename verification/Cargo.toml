[package]
name = "loco_chess"
version = "0.1.0"
edition = "2021"
publish = false

[dependencies]
chess = "3.2"
vampirc-uci = { version = "0.11", features = ["chess"] }
log = "0.4"
simplelog = "*"
fibers = "*"
string = "*"
trees = "*"
