[package]
name = "bookscan"
version = "0.1.0"
edition = "2021"
publish = false

[dependencies]
serde = { version = "*", features = ["derive"] }
serde_json = "*"
structopt = "*"
ctrlc = "*"
rayon = "*"
