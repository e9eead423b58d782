[package]
name = "pretty_snowflake"
version = "0.1.0"
edition = "2021"
publish = false

[dependencies]
rs-snowflake = "*"
pretty-type-name = "*"

[dev-dependencies]
rand = "*"
regex = "*"
