[package]
name = "arena_physics"
version = "0.1.0"
edition = "2021"
publish = false

[dependencies]
ggez = "=0.5.1"
image = "=0.22.5"
rand = "=0.7.3"
specs = "=0.16.1"
specs-derive = "=0.4.1"

[dev-dependencies]
collider = "=0.3.1"
