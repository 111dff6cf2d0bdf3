[package]
name = "php_iter_tools"
version = "0.1.0"
edition = "2021"
publish = false

[dependencies]
ext-php-rs = "*"
thiserror = "1"
anyhow = "1"
