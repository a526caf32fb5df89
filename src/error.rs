//! Errors raised while building and checking a configuration.

use vstd::prelude::*;

verus! {

/// A keyphrase whose pronunciation could not be worked out.
#[derive(Debug, Clone)]
pub struct PhonemeConvertionError {
    pub raw: String,
}

/// Why a configuration was refused.
#[derive(Debug, Clone)]
pub enum ConfigError {
    /// No speech model path was given.
    NoModel,
    /// The default mode has no commands.
    NoCommands,
    /// A keyphrase could not be turned into a pronunciation.
    UnprounounceableMessage(PhonemeConvertionError),
    /// A command switches to a mode that is not defined.
    ModeNotFound(String),
    /// A named mode has no commands.
    EmptyMode(String),
    /// Two named modes share this name.
    DuplicateMode(String),
    /// Two commands of one mode share this keyphrase.
    DuplicateMessage(String),
    /// A named mode that no command leads to.
    UnreachableMode(String),
}

/// A configuration error as plain values.
pub enum ConfigErrorSpec {
    NoModel,
    NoCommands,
    UnprounounceableMessage(Seq<char>),
    ModeNotFound(Seq<char>),
    EmptyMode(Seq<char>),
    DuplicateMode(Seq<char>),
    DuplicateMessage(Seq<char>),
    UnreachableMode(Seq<char>),
}

impl View for ConfigError {
    type V = ConfigErrorSpec;

    open spec fn view(&self) -> ConfigErrorSpec {
        match self {
            ConfigError::NoModel => ConfigErrorSpec::NoModel,
            ConfigError::NoCommands => ConfigErrorSpec::NoCommands,
            ConfigError::UnprounounceableMessage(e) => ConfigErrorSpec::UnprounounceableMessage(
                e.raw@,
            ),
            ConfigError::ModeNotFound(m) => ConfigErrorSpec::ModeNotFound(m@),
            ConfigError::EmptyMode(m) => ConfigErrorSpec::EmptyMode(m@),
            ConfigError::DuplicateMode(m) => ConfigErrorSpec::DuplicateMode(m@),
            ConfigError::DuplicateMessage(m) => ConfigErrorSpec::DuplicateMessage(m@),
            ConfigError::UnreachableMode(m) => ConfigErrorSpec::UnreachableMode(m@),
        }
    }
}

} // verus!
