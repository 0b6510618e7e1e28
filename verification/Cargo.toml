[package]
name = "blit"
version = "0.1.0"
edition = "2021"
publish = false

[dependencies]
hashbrown = "=0.17.1"
slotmap = "=1.1.1"
