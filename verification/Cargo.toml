[package]
name = "jump10"
version = "0.1.0"
edition = "2021"
publish = false

[dependencies]
hound = "3.5"
lewton = "0.10"
macroquad = "0.4"
rodio = "0.17"
