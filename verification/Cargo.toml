[package]
name = "stakker"
version = "0.1.0"
edition = "2021"
publish = false

[dependencies]
slab = "*"
once_cell = "*"
anymap = "*"
static_assertions = "*"
ident = "*"
