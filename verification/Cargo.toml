[package]
name = "bml"
version = "0.3.1"
edition = "2021"
publish = false

[dependencies]
ordered-multimap = "=0.7.3"
thiserror = "=1.0.69"
