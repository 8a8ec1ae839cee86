[package]
name = "grep_match"
version = "0.1.0"
edition = "2021"
publish = false

[dependencies]
memchr = "2"
onig = { version = "6.5", default-features = false }
onig_sys = { version = "69", default-features = false }
uucore = "*"
