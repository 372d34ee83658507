[package]
name = "amazingly_lost"
version = "0.1.0"
edition = "2021"
publish = false

[dependencies]
rand = "=0.8.8"
bevy = { version = "=0.5.0", default-features = false, features = ["render"] }
# Nothing in this crate names the two tracing crates. bevy 0.5's derive crates
# use parts of syn that only its `full` feature has, and ask for that feature
# nowhere themselves; of the tracing crates, which bevy depends on anyway, these
# exact versions are the ones that ask for it.
tracing = "=0.1.26"
tracing-attributes = "=0.1.15"
