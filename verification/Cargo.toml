[package]
name = "squab"
version = "0.1.0"
edition = "2021"
publish = false

[dependencies]
log = "*"
noodles-bam = "*"
noodles-gff = "*"
