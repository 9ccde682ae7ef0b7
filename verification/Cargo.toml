[package]
name = "meshfree"
version = "0.1.0"
edition = "2021"
publish = false

[dependencies]
rand = "=0.8.8"
cgmath = "=0.18.0"
plotters = "=0.3.7"
apng = "=0.3.4"
image = "0.24"
