[package]
name = "i18n_key_translator"
version = "0.1.0"
edition = "2021"
publish = false

[dependencies]
zed_extension_api = "*"
