[package]
name = "interaction_net"
version = "0.1.0"
edition = "2021"
publish = false
