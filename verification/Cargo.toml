[package]
name = "prefix_postings"
version = "0.1.0"
edition = "2021"
publish = false

[dependencies]
grenad = "*"
heed = "*"
