[package]
name = "rinecs"
version = "0.1.0"
edition = "2021"
publish = false

[dependencies]
densevec = "*"
fxhash = "*"
rayon = "*"
smallvec = "*"
boolinator = "*"
fnv = "*"
