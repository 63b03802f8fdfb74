//! A verified loader and schema validator for flat `key = value`
//! configuration files.
//!
//! [`config::SysctlConfig`] parses configuration text into a mapping from
//! keys to values, and [`schema::Schema`] checks such a mapping against a
//! declared set of keys and value types.

pub mod config;
pub mod kv;
pub mod schema;
pub mod text;

pub use config::SysctlConfig;
pub use schema::{ConfigType, Schema, SchemaFormatError};
