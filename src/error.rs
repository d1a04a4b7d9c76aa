use vstd::prelude::*;

verus! {

/// The kinds of failure that the store reports.
#[derive(Debug, Clone, Copy, PartialEq, Eq, Structural)]
pub enum KvsError {
    /// The key has no value.
    KeyNotFound,
    /// Bytes that should hold a record, a command or a setting do not.
    Parse,
    /// A locator led to bytes that are not a `Set` record of its key.
    Integrity,
    /// The configuration file names another engine than the one requested.
    ConfigMismatch,
    /// The storage layer failed.
    Io,
}

impl KvsError {
    /// The message that a client is shown for this error.
    pub fn message(&self) -> (r: String)
        ensures
            r@ == self.spec_message(),
    {
        match self {
            KvsError::KeyNotFound => String::from_str("Key not found"),
            KvsError::Parse => String::from_str("Could not parse"),
            KvsError::Integrity => String::from_str("Log entry does not match its key"),
            KvsError::ConfigMismatch => String::from_str("Invalid configuration"),
            KvsError::Io => String::from_str("Storage failure"),
        }
    }

    pub open spec fn spec_message(&self) -> Seq<char> {
        match self {
            KvsError::KeyNotFound => "Key not found"@,
            KvsError::Parse => "Could not parse"@,
            KvsError::Integrity => "Log entry does not match its key"@,
            KvsError::ConfigMismatch => "Invalid configuration"@,
            KvsError::Io => "Storage failure"@,
        }
    }
}

} // verus!
