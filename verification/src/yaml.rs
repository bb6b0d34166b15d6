//! The YAML reader: `serde_yaml`, behind contracts that are believed, not proved.
use crate::error::RibboncurlsError;
use crate::value::{Data, DataView};
use serde_yaml::Value as Yaml;
use vstd::prelude::*;

verus! {

/// `serde_yaml::Value`, a parsed YAML document, as an opaque type.
#[verifier::external_type_specification]
#[verifier::external_body]
pub struct ExYamlValue(serde_yaml::Value);

/// `serde_yaml::Error`, what the YAML reader fails with, as an opaque type.
#[verifier::external_type_specification]
#[verifier::external_body]
pub struct ExYamlError(serde_yaml::Error);

/// What a parsed YAML document holds, as a [`DataView`] tree.
pub uninterp spec fn yaml_content(doc: serde_yaml::Value) -> DataView;

/// The content of the document that `text` parses to; `None` where `text` is
/// not one YAML document.
pub uninterp spec fn yaml_document(text: Seq<char>) -> Option<DataView>;

/// `serde_yaml::from_str` at type `serde_yaml::Value`. It reads nothing but
/// `text`, so what it returns is named: `yaml_document(text)`, which is `None`
/// exactly when it returns an error.
#[verifier::external_body]
fn parse_yaml(text: &str) -> (r: Result<serde_yaml::Value, serde_yaml::Error>)
    ensures
        match r {
            Ok(doc) => yaml_document(text@) == Some(yaml_content(doc)),
            Err(_) => yaml_document(text@) is None,
        },
{
    serde_yaml::from_str::<Yaml>(text)
}

/// Takes a `serde_yaml::Value` apart, variant by variant, into a [`Data`]:
/// a number becomes the text that `serde_yaml::Number` displays as, a mapping
/// its entries in order, a tagged value the value under the tag. The result is
/// the tree that `yaml_content` names.
#[verifier::external_body]
fn import_value(doc: serde_yaml::Value) -> (r: Data)
    ensures
        r@ == yaml_content(doc),
{
    match doc {
        Yaml::Null => Data::Null,
        Yaml::Bool(b) => Data::Bool(b),
        Yaml::Number(n) => Data::Number(n.to_string()),
        Yaml::String(s) => Data::Text(s),
        Yaml::Sequence(s) => Data::Sequence(s.into_iter().map(import_value).collect()),
        Yaml::Mapping(m) => Data::Mapping(
            m.into_iter().map(|(k, v)| (import_value(k), import_value(v))).collect(),
        ),
        Yaml::Tagged(t) => Data::Tagged(Box::new(import_value(t.value))),
    }
}

/// Reads `text` as one YAML document.
pub fn load_document(text: &str) -> (r: Result<Data, RibboncurlsError>)
    ensures
        match r {
            Ok(v) => yaml_document(text@) == Some(v@),
            Err(e) => yaml_document(text@) is None && e is YamlParseError,
        },
{
    match parse_yaml(text) {
        Ok(doc) => Ok(import_value(doc)),
        Err(e) => Err(RibboncurlsError::YamlParseError(e)),
    }
}

} // verus!
