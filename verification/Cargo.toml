[package]
name = "er_alloc"
version = "0.1.0"
edition = "2021"
publish = false

[dependencies]
libc = "0.2"
reed-solomon = "0.2"
