[package]
name = "spadefmt"
version = "0.1.0"
edition = "2021"
publish = false

[dependencies]
inform = "=0.2.3"
argh = "=0.1.19"
camino = "=1.2.6"
codespan-reporting = "=0.13.1"
derivative = "=2.2.0"
serde = { version = "=1.0.229", features = ["derive"] }
snafu = "=0.9.2"
toml = "=0.8.23"
spade-ast = "=0.20.0"
spade-common = "=0.20.0"
spade-parser = "=0.20.0"
spade-diagnostics = "=0.20.0"
spade-codespan-reporting = "=0.12.0"
type-sitter = "=0.10.1"
