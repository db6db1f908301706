[package]
name = "nexacore_ui"
version = "0.1.0"
edition = "2021"

[dependencies]
font8x8 = { version = "=0.3.1", features = ["unicode"] }

[dev-dependencies]
postcard = { version = "=1.1.3", default-features = false, features = ["alloc"] }
