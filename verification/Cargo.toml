[package]
name = "mdp_brkga"
version = "0.1.0"
edition = "2021"
publish = false

[dependencies]
ndarray = "=0.17.2"
clap = { version = "=4.6.7", features = ["derive"] }
optimum = "=0.0.4"
rand = "=0.8.8"
rand_pcg = "0.3"
