[package]
name = "swarf"
version = "0.1.0"
edition = "2021"
publish = false

[dependencies]
gcode = "0.7"
libm = "0.2"
