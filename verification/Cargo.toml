[package]
name = "lowering_analysis"
version = "0.1.0"
edition = "2021"
publish = false

[dependencies]
cairo-lang-utils = "*"
cairo-lang-defs = "*"
cairo-lang-filesystem = "*"
cairo-lang-semantic = "*"
cairo-lang-sierra = "*"
itertools = "*"
salsa = "*"
