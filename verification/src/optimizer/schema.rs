//! The version check of saved states and results.
use vstd::prelude::*;

use crate::error::{GEPAError, Result};
use crate::json_value::{get_field, get_u64, json_field, json_u64, parse_json, parsed_json};
use crate::text::{decimal, decimal_text};

verus! {

/// The number in the field `field` of the JSON object `text`: nothing where
/// the text is no JSON, and no number where the field holds none.
pub open spec fn json_number_field(text: Seq<char>, field: Seq<char>) -> Option<Option<u64>> {
    match parsed_json(text) {
        Some(value) => Some(
            match json_field(value, field) {
                Some(x) => json_u64(x),
                None => None,
            },
        ),
        None => None,
    }
}

/// The number in the field `field` of a JSON object.
fn read_number_field(text: &str, field: &str) -> (r: std::result::Result<
    Option<u64>,
    serde_json::Error,
>)
    ensures
        match r {
            Ok(n) => json_number_field(text@, field@) == Some(n),
            Err(_) => json_number_field(text@, field@) is None,
        },
{
    match parse_json(text) {
        Ok(value) => match get_field(&value, field) {
            Some(x) => Ok(get_u64(x)),
            None => Ok(None),
        },
        Err(e) => Err(e),
    }
}

/// The version that a version field stands for: 0 where there is none, and the
/// greatest where the number is too large.
pub open spec fn version_of(field: Option<u64>) -> u32 {
    match field {
        None => 0,
        Some(n) => if n <= u32::MAX {
            n as u32
        } else {
            u32::MAX
        },
    }
}

/// What is said of a version that is not supported.
pub open spec fn unsupported_text(what: Seq<char>, version: u32, supported: u32) -> Seq<char> {
    "Unsupported "@ + what + " schema version "@ + decimal_text(version as nat)
        + "; maximum supported is "@ + decimal_text(supported as nat)
}

/// The version that a version field stands for, if it is supported.
///
/// # Errors
/// A configuration error where the version is above `supported`.
pub fn supported_version(field: Option<u64>, supported: u32, what: &str) -> (r: Result<u32>)
    ensures
        match r {
            Ok(version) => version == version_of(field) && version <= supported,
            Err(e) => {
                &&& version_of(field) > supported
                &&& e matches GEPAError::Config(text)
                &&& text@ == unsupported_text(what@, version_of(field), supported)
            },
        },
{
    let version: u32 = match field {
        None => 0,
        Some(n) => if n <= u32::MAX as u64 {
            n as u32
        } else {
            u32::MAX
        },
    };
    if version > supported {
        let mut text = "Unsupported ".to_owned();
        text.append(what);
        text.append(" schema version ");
        text.append(decimal(version as u64).as_str());
        text.append("; maximum supported is ");
        text.append(decimal(supported as u64).as_str());
        return Err(GEPAError::Config(text));
    }
    Ok(version)
}

/// The version of a saved JSON object, if it is supported.
///
/// # Errors
/// A JSON error where the text is no JSON; a configuration error where the
/// version is above `supported`.
pub fn check_version(text: &str, supported: u32, what: &str) -> (r: Result<u32>)
    ensures
        match json_number_field(text@, "validation_schema_version"@) {
            None => r matches Err(e) && e is Serde,
            Some(field) => match r {
                Ok(version) => version == version_of(field) && version <= supported,
                Err(e) => {
                    &&& version_of(field) > supported
                    &&& e matches GEPAError::Config(message)
                    &&& message@ == unsupported_text(what@, version_of(field), supported)
                },
            },
        },
{
    match read_number_field(text, "validation_schema_version") {
        Ok(field) => supported_version(field, supported, what),
        Err(e) => Err(GEPAError::from(e)),
    }
}

} // verus!
