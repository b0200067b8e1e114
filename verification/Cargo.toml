[package]
name = "jetbrains_search_provider"
version = "0.1.0"
edition = "2021"
publish = false

[dependencies]
anyhow = "*"
clap = "*"
dirs = "*"
elementtree = "*"
env_logger = "*"
gio = "*"
globwalk = "*"
log = "*"
zbus = "*"
