[package]
name = "deltaimage"
version = "0.1.0"
edition = "2021"
publish = false

[dependencies]
anyhow = "*"
filetime = "*"
nix = { version = "*", features = ["user", "fs"] }
structopt = "*"
walkdir = "*"
xattr = "*"
xdelta3 = "*"
