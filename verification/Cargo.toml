[package]
name = "rkyv"
version = "0.1.0"
edition = "2021"
publish = false

[dependencies]
hashbrown = "0.14"
ptr_meta = "0.3"
rancor = "0.1"
rand_pcg = "0.3"

[dev-dependencies]
rand = "0.8"
