[package]
name = "endorsement_policy"
version = "0.1.0"
edition = "2021"
publish = false

[dependencies]
fabric_ledger_protos = "*"
protobuf = "2"
