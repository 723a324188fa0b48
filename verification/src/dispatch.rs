//! Which analysis a file gets before its text is read: environment files
//! by name, and the structured-data format a format id selects.

use vstd::prelude::*;
use crate::text::{ascii_lower, seq_ends_with, seq_starts_with, str_ends_with, str_eq, str_starts_with, to_ascii_lower};

verus! {

/// A structured data format.
#[derive(Debug, Clone, Copy, PartialEq, Eq, Structural)]
pub enum StructuredFormat {
    Yaml,
    Json,
    Toml,
}

/// The structured format a format id selects: `yaml` and `json` by name,
/// anything else TOML.
pub open spec fn format_of(format: Seq<char>) -> StructuredFormat {
    if format == "yaml"@ {
        StructuredFormat::Yaml
    } else if format == "json"@ {
        StructuredFormat::Json
    } else {
        StructuredFormat::Toml
    }
}

/// The structured format a format id selects: exactly [`format_of`].
pub fn structured_format(format: &str) -> (f: StructuredFormat)
    ensures
        f == format_of(format@),
{
    if str_eq(format, "yaml") {
        StructuredFormat::Yaml
    } else if str_eq(format, "json") {
        StructuredFormat::Json
    } else {
        StructuredFormat::Toml
    }
}

/// A file name that holds environment settings, in any ASCII case: `.env`,
/// `.env.<anything>`, or `<anything>.properties`.
pub open spec fn environment_file(name: Seq<char>) -> bool {
    let lower = ascii_lower(name);
    lower == ".env"@ || seq_starts_with(lower, ".env."@) || seq_ends_with(lower, ".properties"@)
}

/// Whether the file `name` holds environment settings: exactly [`environment_file`].
pub fn is_environment_config_file(name: &str) -> (b: bool)
    ensures
        b == environment_file(name@),
{
    let lower = to_ascii_lower(name);
    str_eq(lower.as_str(), ".env") || str_starts_with(lower.as_str(), ".env.") || str_ends_with(lower.as_str(), ".properties")
}

} // verus!
