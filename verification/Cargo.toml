[package]
name = "rsx_dom"
version = "0.1.0"
edition = "2021"
publish = false

[dependencies]
yoga = "*"
jss = "*"
hashbrown = "*"
serde = "*"
serde_derive = "*"
