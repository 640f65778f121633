[package]
name = "wie"
version = "0.1.0"
edition = "2021"
publish = false

[dependencies]
async-trait = "*"
bytemuck = "*"
directories = "*"
gdbstub = "*"
hashbrown = "*"
js-sys = "*"
jvm = "*"
smaf-player = "*"
spin = "*"
tracing = "*"
wasm-bindgen = "*"
web-sys = { version = "*", features = ["CanvasRenderingContext2d", "HtmlCanvasElement", "ImageData"] }
wipi-types = "*"
zip = { version = "8.6.0", default-features = false, features = ["deflate"] }
