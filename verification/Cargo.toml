[package]
name = "dbgcore"
version = "0.1.0"
edition = "2021"
publish = false

[dependencies]
gimli = "*"
libc = "*"
memmap2 = "*"
nix = { version = "*", features = ["ptrace", "process", "signal"] }
object = "*"
typed-arena = "*"
