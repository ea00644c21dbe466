[package]
name = "url_search_params"
version = "0.1.0"
edition = "2021"
publish = false

[dependencies]
url = "2"
boa_engine = "*"
