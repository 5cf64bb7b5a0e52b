[package]
name = "client_att_table"
version = "0.1.0"
edition = "2021"
publish = false

[dependencies]
bt-hci = "*"
embassy-sync = "*"
