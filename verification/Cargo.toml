[package]
name = "hash_table_datastruct"
version = "0.1.0"
edition = "2021"
publish = false

[dependencies]
hashbrown = "*"
serde = "1"
