[package]
name = "gridpath"
version = "0.1.0"
edition = "2021"
publish = false

[dependencies]
binary-heap-plus = "=0.5.0"
notan = { version = "=0.14.0", default-features = false, features = ["backend", "log", "draw", "random", "glsl-to-spirv"] }
geo = "=0.33.1"
splines = "=5.0.0"
mimalloc = "=0.1.52"
