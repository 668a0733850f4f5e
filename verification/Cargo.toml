[package]
name = "just_fmt"
version = "0.1.0"
edition = "2021"

[dependencies]
strip-ansi-escapes = "0.2"
