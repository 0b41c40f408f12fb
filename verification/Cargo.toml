[package]
name = "wave_sudoku"
version = "0.1.0"
edition = "2021"
publish = false

[dependencies]
rand = "*"
egui-macroquad = "*"
