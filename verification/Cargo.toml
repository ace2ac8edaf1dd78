[package]
name = "scope_arena"
version = "0.1.0"
edition = "2021"
publish = false

[dependencies]
bumpalo = "=3.20.3"
futures-util = { version = "=0.3.34", default-features = false, features = ["alloc"] }
infer = "=0.11.0"
dunce = "=1.0.5"
wry = "=0.23.4"
core-foundation = "=0.9.4"
dioxus-interpreter-js = "=0.3.3"
