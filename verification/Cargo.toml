[package]
name = "bookee"
version = "0.1.0"
edition = "2021"
publish = false

[dependencies]
pulldown-cmark = "0.9"
handlebars = "4"
serde_json = "1"
walkdir = "2"
clap = "2"
log = "0.4"
pretty_env_logger = "0.4"
