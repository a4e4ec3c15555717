use vstd::prelude::*;

verus! {

/// Every way in which the pipeline can fail.
#[derive(Debug)]
pub enum CargoPlayError {
    /// A dependency header parses, but not to a table of dependencies.
    ParseError(String),
    /// A dependency header is not valid toml: toml's own error.
    TomlError(toml::de::Error),
    /// The edition token is neither `2015` nor `2018`.
    InvalidEdition(String),
    /// The profile token is not `release`, `debug` or `profile`.
    InvalidCargoProfile(String),
    /// The action token starts with neither `run` nor `test`.
    InvalidCargoAction(String),
    /// A source file cannot be expressed relative to the entry file's directory.
    DiffPathError(String),
    /// The export destination already is a directory.
    PathExistError(String),
}

/// toml's parse error, carried through unchanged.
#[verifier::external_type_specification]
#[verifier::external_body]
pub struct ExTomlError(toml::de::Error);

} // verus!
