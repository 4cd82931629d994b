[package]
name = "primorial_of_a_number"
version = "0.1.0"
edition = "2021"
publish = false

[dependencies]
num-bigint = "0.4"
crossterm = "0.25"
tui = "0.19"
unicode-width = "0.1"
