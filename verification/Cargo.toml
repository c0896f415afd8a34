[package]
name = "graph_algorithm_tui"
version = "0.1.0"
edition = "2021"
publish = false

[dependencies]
crossterm = "*"
force_graph = "*"
rand = "*"
ratatui = "*"
