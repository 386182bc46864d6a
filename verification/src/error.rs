use vstd::prelude::*;

verus! {

/// Why an operation on the object store failed.
#[derive(Debug, Clone, Copy, PartialEq, Eq, Structural)]
pub enum StoreError {
    /// The requested digest has no stored object.
    NotFound,
    /// Stored bytes do not inflate, or their framing is malformed.
    CorruptData,
    /// The backing storage could not be read or written.
    IOFailure,
    /// A digest string of the wrong length or with characters that are not
    /// lowercase hexadecimal digits.
    InvalidArgument,
}

impl StoreError {
    /// A short description for messages.
    pub fn describe(&self) -> (text: &'static str)
        ensures
            text@ == match *self {
                StoreError::NotFound => "object not found"@,
                StoreError::CorruptData => "corrupt object data"@,
                StoreError::IOFailure => "storage i/o failure"@,
                StoreError::InvalidArgument => "invalid digest"@,
            },
    {
        match self {
            StoreError::NotFound => "object not found",
            StoreError::CorruptData => "corrupt object data",
            StoreError::IOFailure => "storage i/o failure",
            StoreError::InvalidArgument => "invalid digest",
        }
    }
}

} // verus!
