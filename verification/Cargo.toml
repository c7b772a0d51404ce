[package]
name = "deepnest"
version = "0.1.0"
edition = "2021"
publish = false

[dependencies]
clipper2-sys = "*"
usvg = "*"
roxmltree = "*"
quick-xml = "*"
parry2d-f64 = "*"
csv = "*"
calamine = "*"
