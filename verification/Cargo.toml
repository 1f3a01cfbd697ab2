[package]
name = "sea_orm_select"
version = "0.1.0"
edition = "2021"
publish = false

[dependencies]
sea-query = { version = "=0.30.7", features = ["with-json"] }
strum = "=0.25.0"
futures = "=0.3.34"
serde_json = "=1.0.154"
