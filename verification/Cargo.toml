[package]
name = "component_changes"
version = "0.1.0"
edition = "2021"
publish = false

[dependencies]
serde = "1"
erased-serde = "0.4"
typeid = "1"
bytes = "1"
