//! Configuration errors: what a stylesheet rule or a style text can be
//! refused for.

use vstd::prelude::*;

verus! {

/// Why a selector pattern or a style text was refused.
#[derive(Debug)]
pub enum ConfigError {
    /// A selector pattern with an empty segment (leading, trailing or
    /// doubled space, or no text at all).
    MalformedSelector(String),
    /// A style declaration that is not one `key: value` pair.
    MalformedDeclaration(String),
    /// A style key that is not recognised.
    UnknownKey(String),
    /// A value that the key does not take: the key, then the value.
    InvalidValue(String, String),
    /// A color value that names no color.
    UnknownColor(String),
}

/// The mathematical form of a [`ConfigError`].
pub enum ConfigFault {
    MalformedSelector(Seq<char>),
    MalformedDeclaration(Seq<char>),
    UnknownKey(Seq<char>),
    InvalidValue(Seq<char>, Seq<char>),
    UnknownColor(Seq<char>),
}

impl View for ConfigError {
    type V = ConfigFault;

    open spec fn view(&self) -> ConfigFault {
        match self {
            ConfigError::MalformedSelector(s) => ConfigFault::MalformedSelector(s@),
            ConfigError::MalformedDeclaration(s) => ConfigFault::MalformedDeclaration(s@),
            ConfigError::UnknownKey(s) => ConfigFault::UnknownKey(s@),
            ConfigError::InvalidValue(k, v) => ConfigFault::InvalidValue(k@, v@),
            ConfigError::UnknownColor(s) => ConfigFault::UnknownColor(s@),
        }
    }
}

} // verus!
