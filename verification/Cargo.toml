[package]
name = "sublime_core"
version = "0.1.0"
edition = "2021"
publish = false

[dependencies]
ignore = "=0.4.33"
once_cell = "=1.21.4"
rfd = "0.14"
syntect = { version = "=5.3.0", default-features = false, features = ["parsing", "default-syntaxes", "default-themes", "regex-fancy", "dump-load"] }
