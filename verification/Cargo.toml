[package]
name = "fvm_kernel_core"
version = "0.1.0"
edition = "2021"
publish = false

[dependencies]
anyhow = "1"
cid = "*"
derive_more = { version = "*", features = ["display"] }
fvm_ipld_amt = "*"
fvm_ipld_bitfield = "*"
fvm_ipld_blockstore = "*"
fvm_shared = "*"
thiserror = "*"
