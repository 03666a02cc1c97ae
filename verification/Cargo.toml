[package]
name = "stark_verifier_gadget"
version = "0.1.0"
edition = "2021"
publish = false
