[package]
name = "httm"
version = "0.1.0"
edition = "2021"
publish = false

[dependencies]
chrono = "0.4"
crossbeam = "0.8"
crossbeam-channel = "0.5"
fxhash = "0.2"
hashbrown = "0.14"
itertools = "0.11"
libc = "0.2"
lscolors = "0.16"
nix = { version = "0.27", features = ["fs", "user", "time"] }
nu-ansi-term = "0.49"
number_prefix = "0.4"
once_cell = "1"
rayon = "1"
realpath-ext = "0.1"
serde = { version = "1", features = ["derive"] }
skim = "0.10"
terminal_size = "0.3"
time = { version = "0.3", features = ["formatting"] }
which = "4"
xattr = "1"
