[package]
name = "shell_literal"
version = "0.1.0"
edition = "2021"
publish = false

[dependencies]
once_cell = "*"
serde = "*"
shell-escape = "*"
upon = "*"
