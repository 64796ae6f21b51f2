[package]
name = "lab_graphics"
version = "0.1.0"
edition = "2021"
publish = false

[dependencies]
anyhow = "1"
glam = "0.24"
image = { version = "0.24", default-features = false, features = ["jpeg", "png"] }
minifb = "0.25"
tobj = "4"
