[package]
name = "pcp_search"
version = "0.1.0"
edition = "2021"
publish = false

[dependencies]
clap = "2.34"
ctrlc = "1.1"
libc = "0.2"
num_cpus = "1"
scoped_threadpool = "0.1"
tabwriter = "1"
time = "0.1"
