[package]
name = "makeppkg"
version = "0.1.0"
edition = "2021"
publish = false

[dependencies]
digest = "0.10"
md-5 = "0.10"
sha1 = "0.10"
sha2 = "0.10"
regex = "1"
duct = "0.13"
xdg = "2"
