[package]
name = "rel_lang"
version = "0.1.0"
edition = "2021"
publish = false
