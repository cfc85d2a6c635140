[package]
name = "maze_game"
version = "0.1.0"
edition = "2021"
publish = false

[dependencies]
rand = "0.8"
console = "0.15"
figlet-rs = "0.1"
term_size = "0.3"
