//! A set-associative cache simulator with least-recently-used replacement.
//!
//! Trace lines are decoded into a tag and a set index ([`preprocess_line`]),
//! and each data access is replayed against a [`Cache`] ([`check_cache`],
//! [`process_line`], [`simulate`]).
pub mod cache;
pub mod config;
pub mod decode;
pub mod hex;
pub mod sim;

pub use cache::{check_cache, Cache};
pub use config::{validate_config, ConfigError};
pub use decode::{preprocess_line, LineError};
pub use hex::convert_to_binary_from_hex;
pub use sim::{process_line, simulate};
