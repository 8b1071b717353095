[package]
name = "oxscape"
version = "0.1.0"
edition = "2021"
publish = false

[dependencies]
async-channel = "=2.5.0"
async-trait = "=0.1.92"
colorous = "1"
crossterm = "0.28"
rand = "=0.9.5"
rand_distr = "=0.5.1"
rand_mt = "=5.0.0"
ratatui = "0.29"
rayon = "=1.12.0"
ryu = "=1.0.23"
