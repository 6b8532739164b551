[package]
name = "sp_im"
version = "0.1.0"
edition = "2021"
publish = false

[dependencies]
arbitrary = "*"
quickcheck = "*"
