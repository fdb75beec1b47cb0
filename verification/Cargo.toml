[package]
name = "sudoku_solver"
version = "0.1.0"
edition = "2021"

[dependencies]
itertools = "*"
