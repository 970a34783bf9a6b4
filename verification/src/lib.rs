pub mod text;
pub mod strmap;
pub mod outside;
pub mod config;
pub mod codex_toml;
pub mod doc;
pub mod headers;
pub mod proxy;
pub mod sessions;
pub mod desktop;
pub mod takeover;
pub mod dashboard;
