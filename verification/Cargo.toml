[package]
name = "traffic_sim"
version = "0.1.0"
edition = "2021"
publish = false

[dependencies]
sortedlist-rs = "*"
macroquad = "*"
