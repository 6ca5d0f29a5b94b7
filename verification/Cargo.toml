[package]
name = "split_ordered"
version = "0.1.0"
edition = "2021"
publish = false

[dependencies]
crossbeam-epoch = "=0.8.2"
