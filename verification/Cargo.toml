[package]
name = "kdl_xml"
version = "0.1.0"
edition = "2021"
publish = false

[dependencies]
kdl = "6"
quick-xml = "0.38"
thiserror = "2"
clap = { version = "4", features = ["derive"] }
