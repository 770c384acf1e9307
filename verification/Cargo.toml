[package]
name = "rdf"
version = "0.1.0"
edition = "2021"
publish = false

[dependencies]
nom = "1.2"
snowflake = "1"
