[package]
name = "hutspot"
version = "0.1.0"
edition = "2021"
publish = false

[dependencies]
pathfinding = "*"
nalgebra = "*"
approx = "*"
glam = "*"
bevy_color = "*"
