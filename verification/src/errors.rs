//! Stable error codes carried in ticket results and syscall returns.

use vstd::prelude::*;

verus! {

/// Error kinds surfaced to userspace. The wire encoding is stable and
/// non-zero; see [`Error::code`].
#[derive(Clone, Copy, PartialEq, Eq, Structural, Debug)]
pub enum Error {
    NotImplemented,
    DoesNotExist,
    AlreadyExists,
    InvalidArgument,
    PermissionDenied,
    OutOfMemory,
    Cancelled,
    Overflow,
    Unaligned,
}

impl Error {
    /// The stable numeric code of this error kind.
    pub open spec fn code_spec(self) -> u64 {
        match self {
            Error::NotImplemented => 1,
            Error::DoesNotExist => 2,
            Error::AlreadyExists => 3,
            Error::InvalidArgument => 4,
            Error::PermissionDenied => 5,
            Error::OutOfMemory => 6,
            Error::Cancelled => 7,
            Error::Overflow => 8,
            Error::Unaligned => 9,
        }
    }

    /// Encode this error as its stable non-zero numeric code.
    pub fn code(self) -> (r: u64)
        ensures
            r == self.code_spec(),
            1 <= r <= 9,
    {
        match self {
            Error::NotImplemented => 1,
            Error::DoesNotExist => 2,
            Error::AlreadyExists => 3,
            Error::InvalidArgument => 4,
            Error::PermissionDenied => 5,
            Error::OutOfMemory => 6,
            Error::Cancelled => 7,
            Error::Overflow => 8,
            Error::Unaligned => 9,
        }
    }

    /// Decode a numeric code; zero and unknown codes have no error kind.
    pub fn from_code(code: u64) -> (r: Option<Error>)
        ensures
            match r {
                Some(e) => e.code_spec() == code,
                None => forall|e: Error| e.code_spec() != code,
            },
    {
        match code {
            1 => Some(Error::NotImplemented),
            2 => Some(Error::DoesNotExist),
            3 => Some(Error::AlreadyExists),
            4 => Some(Error::InvalidArgument),
            5 => Some(Error::PermissionDenied),
            6 => Some(Error::OutOfMemory),
            7 => Some(Error::Cancelled),
            8 => Some(Error::Overflow),
            9 => Some(Error::Unaligned),
            _ => None,
        }
    }
}

} // verus!
