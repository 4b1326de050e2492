[package]
name = "y4m_demux"
version = "0.1.0"
edition = "2021"
publish = false

[dependencies]
av-data = "*"
av-format = "*"
