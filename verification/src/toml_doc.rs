use vstd::prelude::*;

use crate::config::TomlValue;

verus! {

#[verifier::external_type_specification]
#[verifier::external_body]
pub struct ExTomlValue(toml::Value);

/// The document that the `toml` crate reads from the text `raw`, converted
/// value for value; `None` when `raw` is no TOML document.
pub uninterp spec fn toml_document(raw: Seq<char>) -> Option<TomlValue>;

/// Parses `raw` as a TOML document with `toml`'s parser (`toml::Table`'s
/// `FromStr`). Trusted, not proved: the result is the converted document,
/// which depends on the text alone; what the document holds is not stated.
#[verifier::external_body]
pub fn parse_toml_document(raw: &str) -> (doc: Option<TomlValue>)
    ensures
        doc == toml_document(raw@),
{
    match raw.parse::<toml::Table>() {
        Ok(table) => Some(toml_value_of(&toml::Value::Table(table))),
        Err(_) => None,
    }
}

/// Converts a value of the `toml` crate, variant for variant; a float
/// travels as its shortest decimal text (`Display` of `f64`), a datetime as
/// its TOML text.
#[verifier::external_body]
fn toml_value_of(value: &toml::Value) -> TomlValue {
    match value {
        toml::Value::String(s) => TomlValue::String(s.clone()),
        toml::Value::Integer(i) => TomlValue::Integer(*i),
        toml::Value::Float(f) => TomlValue::Float(f.to_string()),
        toml::Value::Boolean(b) => TomlValue::Boolean(*b),
        toml::Value::Datetime(d) => TomlValue::Datetime(d.to_string()),
        toml::Value::Array(items) => TomlValue::Array(items.iter().map(toml_value_of).collect()),
        toml::Value::Table(t) => TomlValue::Table(
            t.iter().map(|(k, v)| (k.clone(), toml_value_of(v))).collect(),
        ),
    }
}

} // verus!
