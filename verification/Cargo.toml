[package]
name = "schematic_nets"
version = "0.1.0"
edition = "2021"
publish = false

[dependencies]
petgraph = "0.6"
euclid = "0.22"
by_address = "1"
send_wrapper = "0.6"
