[package]
name = "raytracing"
version = "0.1.0"
edition = "2021"
publish = false

[dependencies]
rand = "0.8"
rand_xoshiro = "0.6"
flate2 = "1"
time = "0.3"
pico-args = "0.5"
getrandom = "0.2"
once_cell = "1"
image = { version = "0.24", default-features = false, features = ["jpeg", "png"] }
half = "2"
smallvec = "1"
exr = "1"
