[package]
name = "stable_alloc"
version = "0.1.0"
edition = "2021"
publish = false

[dependencies]
ic-cdk = "*"
speedy = "*"
