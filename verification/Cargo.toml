[package]
name = "differential"
version = "0.1.0"
edition = "2021"
