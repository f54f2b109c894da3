[package]
name = "gtensor"
version = "0.1.0"
edition = "2021"
publish = false

[dependencies]
rayon = "1"
objc2 = "0.6"
objc2-foundation = "0.3"
objc2-metal = "0.3"
objc2-metal-performance-shaders = "0.3"
objc2-metal-performance-shaders-graph = "0.3"
