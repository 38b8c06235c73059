[package]
name = "termx"
version = "0.1.0"
edition = "2021"
publish = false

[dependencies]
int-vec-2d = "=0.2.1"
unicode-width = "=0.2.3"
timer-no-std = "=0.6.0"
basic-oop = "=0.8.3"
ooecs = "=0.1.1"
iter-identify_first_last = "=0.2.3"
itertools = "=0.15.0"
either = "=1.19.0"
hashbrown = "=0.17.1"
dyn-clone = "=1.0.20"
paste = "=1.0.15"
print-no-std = "=0.3.0"
serde = { version = "=1.0.229", features = ["derive"] }
typetag = "=0.2.23"
