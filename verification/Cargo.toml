[package]
name = "newflasher"
version = "0.1.0"
edition = "2021"
publish = false

[dependencies]
regex = "1"
xml-rs = "0.8"
nusb = "0.2"
tar = "0.4"
flate2 = "1"
anyhow = "1"
log = "0.4"
