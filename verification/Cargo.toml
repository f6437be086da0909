[package]
name = "mcts_extract"
version = "0.1.0"
edition = "2021"
publish = false

[dependencies]
fxhash = "0.2"
indexmap = "2"
ordered-float = "4"
rand = "0.8"
smallvec = "1"
