[package]
name = "prediction_clob"
version = "0.1.0"
edition = "2021"
publish = false

[dependencies]
anchor-lang = "=0.30.1"
anchor-spl = "=0.30.1"
bytemuck = { version = "=1.25.2", features = ["derive", "min_const_generics"] }
