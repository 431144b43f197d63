[package]
name = "commit_clock"
version = "0.1.0"
edition = "2021"
publish = false

[dependencies]
chrono = "0.4"
dotenvy = "0.15"
macroquad = "0.4"
miniquad = "0.4"
resvg = "0.45"
serde_json = "1"
ureq = "2"
