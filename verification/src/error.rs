//! The ways a render can fail.
use vstd::prelude::*;

verus! {

/// Why a template could not be rendered.
#[non_exhaustive]
#[derive(Debug)]
pub enum RibboncurlsError {
    /// A delimiter is empty, or a tag that changes the delimiters does not
    /// name exactly two of them between its `=` signs.
    MissingDelimiter,
    /// A tag is never closed, a section is never closed, or a section is
    /// closed under another name than the innermost open one.
    MissingEndTag,
    /// A section or partial tag has no name.
    BadTag,
    /// The partials are not a YAML document.
    YamlParseError(serde_yaml::Error),
    /// Partials include one another to a greater depth than
    /// [`crate::render::MAX_PARTIAL_DEPTH`].
    PartialDepth,
}

impl RibboncurlsError {
    /// A short description of the failure.
    pub fn message(&self) -> (out: String)
        ensures
            out@ == match self {
                RibboncurlsError::MissingDelimiter => "missing delimiter"@,
                RibboncurlsError::MissingEndTag => "missing end tag"@,
                RibboncurlsError::BadTag => "bad tag"@,
                RibboncurlsError::YamlParseError(_) => "bad input"@,
                RibboncurlsError::PartialDepth => "partials nested too deeply"@,
            },
    {
        match self {
            RibboncurlsError::MissingDelimiter => "missing delimiter".to_owned(),
            RibboncurlsError::MissingEndTag => "missing end tag".to_owned(),
            RibboncurlsError::BadTag => "bad tag".to_owned(),
            RibboncurlsError::YamlParseError(_) => "bad input".to_owned(),
            RibboncurlsError::PartialDepth => "partials nested too deeply".to_owned(),
        }
    }
}

} // verus!
