[package]
name = "bosing"
version = "0.1.0"
edition = "2021"
publish = false

[dependencies]
anyhow = "1"
bspline = "*"
cached = "*"
enum_dispatch = "*"
float-cmp = "*"
hashbrown = "*"
itertools = "*"
ndarray = "*"
num = "*"
ordered-float = "*"
pulp = "*"
rayon = "*"
thiserror = "*"
