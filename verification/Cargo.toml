[package]
name = "decimax"
version = "0.1.0"
edition = "2021"
publish = false

[dependencies]
div-pow10 = "*"

[dev-dependencies]
primitive_fixed_point_decimal = "*"
