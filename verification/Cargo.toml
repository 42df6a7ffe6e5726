[package]
name = "stable_audio"
version = "0.1.0"
edition = "2021"
publish = false

[dependencies]
tokenizers = "=0.22.2"
half = "=2.7.1"
hound = "=3.5.1"
rand = "=0.9.5"
rand_distr = "=0.5.1"
thiserror = "=2.0.21"
