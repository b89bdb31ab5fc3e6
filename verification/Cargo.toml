[package]
name = "sixtyfps_interpreter"
version = "0.1.0"
edition = "2021"
publish = false

[dependencies]
regex = "=1.13.1"
guillotiere = "=0.7.0"
euclid = "=0.22.14"
glow = "*"
