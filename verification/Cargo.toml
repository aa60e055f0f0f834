[package]
name = "inferdf"
version = "0.1.0"
edition = "2021"
publish = false

[dependencies]
hashbrown = "0.14"
slab = "0.4"
im = "15"
indexmap = "2"
iref = "3"
normal-form = "*"
thiserror = "1"
clap = { version = "4", features = ["derive"] }
log = "0.4"
stderrlog = "0.5"
