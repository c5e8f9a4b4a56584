[package]
name = "hmm"
version = "0.1.0"
edition = "2021"
publish = false

[dependencies]
chrono = "0.4"
clap = "4"
directories = "5"
dotenv = "0.15"
