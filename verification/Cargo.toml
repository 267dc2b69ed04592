[package]
name = "dag_scheduler"
version = "0.1.0"
edition = "2021"
publish = false

[dependencies]
log = "0.4"
num_cpus = "1"
once_cell = "1"
regex = "1"
thiserror = "1"
threadpool = "1"
uriparse = "0.6"
