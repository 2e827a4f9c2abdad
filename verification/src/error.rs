use vstd::prelude::*;

verus! {

/// Why an operation on a schema was refused. A refused operation changes nothing.
#[derive(Debug, Copy, Clone, PartialEq, Eq, Structural)]
pub enum Error {
    /// A primary key was to be set on a schema that has one.
    PrimaryKeyAlreadyPresent,
    /// A new name was to be interned although every identifier is taken.
    MaxFieldsLimitExceeded,
}

pub type SResult<T> = Result<T, Error>;

impl Error {
    /// The message of the error, as one line of text.
    pub fn message(&self) -> (text: &'static str)
        ensures
            text@ == match *self {
                Error::PrimaryKeyAlreadyPresent => "a primary key is already present"@,
                Error::MaxFieldsLimitExceeded => "the maximum of fields for a schema is reached"@,
            },
    {
        match self {
            Error::PrimaryKeyAlreadyPresent => "a primary key is already present",
            Error::MaxFieldsLimitExceeded => "the maximum of fields for a schema is reached",
        }
    }
}

} // verus!
