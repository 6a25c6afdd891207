[package]
name = "iron_mockside"
version = "0.1.0"
edition = "2021"
publish = false

[dependencies]
regex = "1"
kmp = "*"
clap = "2"
log = "0.4"
stderrlog = "*"
