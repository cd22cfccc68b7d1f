[package]
name = "musicxml_analysis"
version = "0.1.0"
edition = "2021"
publish = false

[dependencies]
musicxml = "*"
plotly = "*"
plotters = "*"
