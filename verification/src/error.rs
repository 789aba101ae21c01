//! Error kinds reported while decoding an image.

use vstd::prelude::*;

verus! {

/// Describes an error encountered while reading an image.
#[derive(Debug, Clone, Copy)]
pub enum Error {
    /// The image is malformed in some way. The string describes how.
    Malformed(&'static str),
    /// A feature is not supported by the decoder.
    UnsupportedFeature(&'static str),
    /// The decoder had a problem.
    InternalError(&'static str),
    /// There was an error reading the image; raised only by collaborating
    /// layers that perform input, never by the decoder core itself.
    Io(&'static str),
}

impl Error {
    /// The error's message string.
    pub fn message(&self) -> (r: &'static str)
        ensures
            r@ == self.message_spec(),
    {
        match self {
            Error::Malformed(m) => m,
            Error::UnsupportedFeature(m) => m,
            Error::InternalError(m) => m,
            Error::Io(m) => m,
        }
    }

    /// The message string carried by the error.
    pub open spec fn message_spec(&self) -> Seq<char> {
        match self {
            Error::Malformed(m) => m@,
            Error::UnsupportedFeature(m) => m@,
            Error::InternalError(m) => m@,
            Error::Io(m) => m@,
        }
    }
}

/// Whether two errors have the same kind and the same message text.
pub open spec fn same_error(a: Error, b: Error) -> bool {
    match (a, b) {
        (Error::Malformed(x), Error::Malformed(y)) => x@ == y@,
        (Error::UnsupportedFeature(x), Error::UnsupportedFeature(y)) => x@ == y@,
        (Error::InternalError(x), Error::InternalError(y)) => x@ == y@,
        (Error::Io(x), Error::Io(y)) => x@ == y@,
        _ => false,
    }
}

} // verus!
