[package]
name = "rmduprs"
version = "0.1.0"
edition = "2021"
publish = false

[dependencies]
anyhow = "1"
bstr = "1"
clap = { version = "4", features = ["derive"] }
fastrand = "2"
lz4_flex = "*"
mimalloc = "*"
noodles = { version = "*", features = ["bam", "bgzf", "sam"] }
rayon = "1"
roaring = "*"
tempfile = "3"
