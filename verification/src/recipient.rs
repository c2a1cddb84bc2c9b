//! Resolving the encryption recipient. The recipient comes from an
//! environment-variable override when that is set and non-empty, otherwise
//! from the `recipient` field of the user's configuration file, a TOML
//! document. The caller reads the environment and the file; this module
//! holds the priority rule and the TOML extraction.

use vstd::prelude::*;

verus! {

#[verifier::external_type_specification]
#[verifier::external_body]
pub struct ExTomlValue(toml::Value);

#[verifier::external_type_specification]
#[verifier::external_body]
#[verifier::reject_recursive_types(K)]
#[verifier::reject_recursive_types(V)]
pub struct ExTomlMap<K, V>(toml::map::Map<K, V>);

/// Relies on `str::parse::<toml::Table>` (toml's `FromStr`): parses the text
/// as a TOML document. Nothing is stated of the resulting opaque table.
#[verifier::external_body]
fn toml_parse(s: &str) -> Option<toml::Table> {
    s.parse::<toml::Table>().ok()
}

/// Relies on `toml::map::Map::get`: looks the key up in the document's
/// top-level table, `None` for a missing key. Nothing is stated of the
/// result.
#[verifier::external_body]
fn toml_get<'a>(t: &'a toml::Table, key: &str) -> Option<&'a toml::Value> {
    t.get(key)
}

/// Relies on `toml::Value::as_str`: the string payload of a TOML string
/// value, `None` for any other variant. Nothing is stated of the result.
#[verifier::external_body]
fn toml_as_string(v: &toml::Value) -> Option<String> {
    v.as_str().map(|s: &str| s.to_string())
}

/// The string value of the `recipient` field of a TOML configuration
/// document, or `None` when the text does not parse, has no such field, or
/// holds a non-string under it. The result is decided entirely by the TOML
/// library, so no property of it is stated here.
pub fn recipient_from_config(config: &str) -> Option<String> {
    match toml_parse(config) {
        Some(doc) => match toml_get(&doc, "recipient") {
            Some(field) => toml_as_string(field),
            None => None,
        },
        None => None,
    }
}

/// The priority rule for the encryption recipient: a set and non-empty
/// override wins; otherwise whatever the configuration yielded, which may be
/// nothing.
pub fn resolve_recipient(env_override: Option<String>, config_recipient: Option<String>) -> (r:
    Option<String>)
    ensures
        match env_override {
            Some(v) => if v@.len() > 0 {
                r matches Some(x) && x@ == v@
            } else {
                r == config_recipient
            },
            None => r == config_recipient,
        },
{
    match env_override {
        Some(v) => {
            if !v.as_str().is_empty() {
                Some(v)
            } else {
                config_recipient
            }
        },
        None => config_recipient,
    }
}

} // verus!
