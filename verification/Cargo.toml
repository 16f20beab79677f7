[package]
name = "scientific_calculator_mcp_app"
version = "0.1.0"
edition = "2021"
publish = false

[dependencies]
pmcp = { version = "=2.23.0", features = ["streamable-http", "schema-generation", "mcp-apps"] }
schemars = "=1.2.3"
serde = { version = "=1.0.229", features = ["derive"] }
tokio = { version = "=1.54.1", features = ["macros", "rt-multi-thread", "sync"] }
tracing = "=0.1.44"
tracing-subscriber = { version = "=0.3.23", features = ["env-filter"] }
lambda_http = "=1.3.2"
once_cell = "=1.21.4"
reqwest = "=0.13.5"
