[package]
name = "cog"
version = "0.1.0"
edition = "2021"
publish = false

[dependencies]
astar = "=4.0.0"
docopt = "=1.1.1"
ncurses = "=5.101.0"
