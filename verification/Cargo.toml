[package]
name = "sudoku"
version = "0.1.0"
edition = "2021"
publish = false

[dependencies]
itertools = "0.10"
clap = "2"
colored = "2"
prettytable-rs = "0.10"
