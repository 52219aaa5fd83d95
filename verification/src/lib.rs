//! Parser for files in the Linux `sysctl.conf` syntax.
//!
//! Later definitions of the same key overwrite earlier definitions, matching
//! the behavior users normally expect when loading a configuration file.

pub mod error;
pub mod parser;
pub mod schema;
pub mod settings;
pub mod text;

pub use error::{LoadError, ParseError, SchemaParseError, ValidatedLoadError, ValidationError};
pub use parser::parse_str;
pub use schema::{parse_str_with_schema, Schema, ValueType};
pub use settings::{SysctlMap, SysctlValue};
