[package]
name = "quiren"
version = "0.1.0"
edition = "2021"
publish = false

[dependencies]
rand = "0.8"
edit = "*"
main_error = "*"
pico-args = "*"
question = "*"
thiserror = "*"
trash = "*"
