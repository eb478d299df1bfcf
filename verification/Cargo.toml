[package]
name = "lua_compiler"
version = "0.1.0"
edition = "2021"
publish = false

[dependencies]
failure = "=0.1.8"
gc-arena = "=0.2.2"
num-traits = "=0.2.19"
