[package]
name = "pure_circuit_lib"
version = "0.1.0"
edition = "2021"
publish = false

[dependencies]
petgraph = "=0.8.3"
priority-queue = "=2.7.0"
genetic_algorithm = "=0.20.5"
anyhow = "=1.0.104"
log = "=0.4.34"
itertools = "=0.15.0"
