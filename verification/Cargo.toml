[package]
name = "rusty_dumb_tools"
version = "0.1.5"
edition = "2021"
publish = false
