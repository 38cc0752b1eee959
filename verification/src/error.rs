//! The error type of the library and its mathematical view.
use vstd::prelude::*;

verus! {

/// What went wrong while reading the configuration, the cache, or running a
/// command.
#[derive(Debug, PartialEq, Eq)]
pub enum ConfigError {
    /// An outside operation (a file, a directory, a conversion) failed.
    CommandFailed { cmd: String, message: String },
    /// A line of a file could not be read; `line` counts from 1.
    InvalidSyntax { line: usize, message: String },
    /// The configuration lacks something or holds a value that is refused.
    InvalidConfig { message: String },
}

/// A `ConfigError` with its strings taken as character sequences.
pub enum ErrorView {
    CommandFailed { cmd: Seq<char>, message: Seq<char> },
    InvalidSyntax { line: nat, message: Seq<char> },
    InvalidConfig { message: Seq<char> },
}

impl View for ConfigError {
    type V = ErrorView;

    open spec fn view(&self) -> ErrorView {
        match self {
            ConfigError::CommandFailed { cmd, message } => ErrorView::CommandFailed {
                cmd: cmd@,
                message: message@,
            },
            ConfigError::InvalidSyntax { line, message } => ErrorView::InvalidSyntax {
                line: *line as nat,
                message: message@,
            },
            ConfigError::InvalidConfig { message } => ErrorView::InvalidConfig {
                message: message@,
            },
        }
    }
}

impl ConfigError {
    /// A `CommandFailed` error with the given command and message.
    pub fn command_failed(cmd: &str, message: &str) -> (res: ConfigError)
        ensures
            res@ == (ErrorView::CommandFailed { cmd: cmd@, message: message@ }),
    {
        ConfigError::CommandFailed { cmd: String::from_str(cmd), message: String::from_str(message) }
    }

    /// An `InvalidConfig` error with the given message.
    pub fn invalid_config(message: &str) -> (res: ConfigError)
        ensures
            res@ == (ErrorView::InvalidConfig { message: message@ }),
    {
        ConfigError::InvalidConfig { message: String::from_str(message) }
    }
}

} // verus!
