//! Streaming conversion between a compact self-delimiting binary encoding
//! (CBOR) and several text encodings (JSON, YAML, TOML).
//!
//! The binary codec is implemented and verified here; the text encodings are
//! reached through the serde family of crates behind trusted wrappers.
pub mod value;
pub mod error;
pub mod encode;
pub mod decode;
pub mod bridge;
pub mod export;
pub mod import;
pub mod files;
pub mod config;
pub mod codec;
pub mod laws;
