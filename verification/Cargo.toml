[package]
name = "iascar"
version = "0.1.0"
edition = "2021"
publish = false

[dependencies]
num-bigint = "*"
clingo = "=0.7.3"
savan = "=0.3.5"
thiserror = "=2.0.21"
