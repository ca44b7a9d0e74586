[package]
name = "dutree"
version = "0.1.0"
edition = "2021"
publish = false

[dependencies]
jwalk = "*"
get_sys_info = "*"
