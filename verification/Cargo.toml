[package]
name = "i18n_gen"
version = "0.1.0"
edition = "2021"
publish = false

[dependencies]
serde_yaml = "*"
convert_case = "*"
unic-langid = "*"
