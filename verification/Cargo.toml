[package]
name = "jenkins_plugin_graph"
version = "0.1.0"
edition = "2021"
publish = false

[dependencies]
sha2 = "0.10"
zip = { version = "2", default-features = false, features = ["deflate"] }
reqwest = { version = "0.12", features = ["blocking"] }
serde = { version = "1", features = ["derive"] }
serde_yaml = "0.9"
clap = { version = "4", features = ["derive", "env"] }
clap-verbosity-flag = "2"
dirs-next = "2"
log = "0.4"
strum_macros = "0.26"
