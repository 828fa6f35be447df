[package]
name = "som"
version = "0.1.0"
edition = "2021"
publish = false

[dependencies]
rand = "0.4"
clap = "2"
ctrlc = "3"
image = "0.24"
palette = "0.7"
serde = "1"
serde_derive = "1"
serde_json = "1"
