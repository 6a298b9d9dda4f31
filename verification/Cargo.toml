[package]
name = "headcrab_inject"
version = "0.1.0"
edition = "2021"
publish = false

[dependencies]
addr2line = "=0.27.1"
cranelift-codegen = "=0.133.3"
cranelift-module = "=0.133.3"
cranelift-reader = "=0.133.3"
gimli = "=0.34.0"
libc = "=0.2.190"
memmap = "=0.7.0"
nix = { version = "=0.31.3", features = ["ptrace", "process", "uio"] }
object = "=0.40.0"
target-lexicon = "=0.13.5"
