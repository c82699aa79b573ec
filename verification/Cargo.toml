[package]
name = "voting"
version = "0.1.0"
edition = "2021"
publish = false

[dependencies]
arch_program = "*"
borsh = "*"
