[package]
name = "fuzzy_tree"
version = "0.1.0"
edition = "2021"
publish = false

[dependencies]
clap = "2.33"
log = "0.4"
termion = "1.5"
which = "4"
