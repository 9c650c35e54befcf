[package]
name = "phyto_fsm"
version = "0.1.0"
edition = "2021"
publish = false

[dependencies]
indextree = "4"
heck = "0.5"
tinytemplate = "1.2"
proc-macro2 = "1"
quote = "1"
syn = { version = "2", features = ["full"] }
log = "0.4"
