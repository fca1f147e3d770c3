[package]
name = "space_partitioning"
version = "0.1.0"
edition = "2021"
publish = false

[dependencies]
smallvec = "1"
hashbrown = "*"
num-traits = "0.2"
arrayvec = "0.7"
