use vstd::prelude::*;
use crate::text::{append, owned};

verus! {

/// Why a command failed.
#[derive(Debug, Clone)]
pub enum CommandError {
    IOError { file: String, message: String },
    InvalidArgumentError { message: String },
    ZipError { message: String },
    GenericError { message: String },
}

impl CommandError {
    /// A line that describes the error.
    pub fn to_string(&self) -> (r: String)
        ensures
            r@ == match self {
                CommandError::IOError { file, message } => "I/O (file "@ + file@ + "): "@
                    + message@,
                CommandError::InvalidArgumentError { message } => "Invalid argument: "@
                    + message@,
                CommandError::ZipError { message } => "Zip: "@ + message@,
                CommandError::GenericError { message } => message@,
            },
    {
        match self {
            CommandError::IOError { file, message } => {
                let mut s = owned("I/O (file ");
                append(&mut s, file.as_str());
                append(&mut s, "): ");
                append(&mut s, message.as_str());
                s
            },
            CommandError::InvalidArgumentError { message } => {
                let mut s = owned("Invalid argument: ");
                append(&mut s, message.as_str());
                s
            },
            CommandError::ZipError { message } => {
                let mut s = owned("Zip: ");
                append(&mut s, message.as_str());
                s
            },
            CommandError::GenericError { message } => owned(message.as_str()),
        }
    }
}

} // verus!
