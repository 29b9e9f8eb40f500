[package]
name = "agent"
version = "0.1.0"
edition = "2021"
publish = false

[dependencies]
bumpalo = "3"
libm = "0.2"
ordered-float = "5"
priority-queue = "2"
rand = "0.9"
rand_distr = "0.5"
