[package]
name = "geomtree"
version = "0.1.0"
edition = "2021"
publish = false

[dependencies]
anyhow = "*"
freebsd-geom = "*"
ptree = "*"
tabwriter = "*"
