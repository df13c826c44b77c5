use vstd::prelude::*;

verus! {

/// The failure kinds of the codec. Each variant carries a short message for people;
/// contracts speak of the variant only.
#[derive(Debug)]
pub enum Error {
    IllegalArgumentException(String),
    ArithmeticException(String),
    WriterException(String),
    ImageErrorException(String),
    UnsupportedOperationException(String),
    TryFromIntError(String),
    Infallible(String),
    NotFoundException(String),
    ReedSolomonException(String),
    IllegalStateException(String),
    FormatException(String),
}

pub type ResultError<T> = Result<T, Error>;

/// An error without its message.
#[derive(Debug, Clone, Copy, PartialEq, Eq, Structural)]
pub enum ErrorKind {
    IllegalArgument,
    Arithmetic,
    Writer,
    ImageError,
    UnsupportedOperation,
    TryFromInt,
    Infallible,
    NotFound,
    ReedSolomon,
    IllegalState,
    Format,
}

impl Error {
    /// The kind of the error.
    pub open spec fn spec_kind(&self) -> ErrorKind {
        match *self {
            Error::IllegalArgumentException(_) => ErrorKind::IllegalArgument,
            Error::ArithmeticException(_) => ErrorKind::Arithmetic,
            Error::WriterException(_) => ErrorKind::Writer,
            Error::ImageErrorException(_) => ErrorKind::ImageError,
            Error::UnsupportedOperationException(_) => ErrorKind::UnsupportedOperation,
            Error::TryFromIntError(_) => ErrorKind::TryFromInt,
            Error::Infallible(_) => ErrorKind::Infallible,
            Error::NotFoundException(_) => ErrorKind::NotFound,
            Error::ReedSolomonException(_) => ErrorKind::ReedSolomon,
            Error::IllegalStateException(_) => ErrorKind::IllegalState,
            Error::FormatException(_) => ErrorKind::Format,
        }
    }

    /// The kind of the error.
    pub fn kind(&self) -> (k: ErrorKind)
        ensures
            k == self.spec_kind(),
    {
        match self {
            Error::IllegalArgumentException(_) => ErrorKind::IllegalArgument,
            Error::ArithmeticException(_) => ErrorKind::Arithmetic,
            Error::WriterException(_) => ErrorKind::Writer,
            Error::ImageErrorException(_) => ErrorKind::ImageError,
            Error::UnsupportedOperationException(_) => ErrorKind::UnsupportedOperation,
            Error::TryFromIntError(_) => ErrorKind::TryFromInt,
            Error::Infallible(_) => ErrorKind::Infallible,
            Error::NotFoundException(_) => ErrorKind::NotFound,
            Error::ReedSolomonException(_) => ErrorKind::ReedSolomon,
            Error::IllegalStateException(_) => ErrorKind::IllegalState,
            Error::FormatException(_) => ErrorKind::Format,
        }
    }

    /// The message that the error carries.
    pub fn message(&self) -> (s: &String)
        ensures
            *s == self.spec_message(),
    {
        match self {
            Error::IllegalArgumentException(m) => m,
            Error::ArithmeticException(m) => m,
            Error::WriterException(m) => m,
            Error::ImageErrorException(m) => m,
            Error::UnsupportedOperationException(m) => m,
            Error::TryFromIntError(m) => m,
            Error::Infallible(m) => m,
            Error::NotFoundException(m) => m,
            Error::ReedSolomonException(m) => m,
            Error::IllegalStateException(m) => m,
            Error::FormatException(m) => m,
        }
    }

    /// The message that the error carries.
    pub open spec fn spec_message(&self) -> String {
        match *self {
            Error::IllegalArgumentException(m) => m,
            Error::ArithmeticException(m) => m,
            Error::WriterException(m) => m,
            Error::ImageErrorException(m) => m,
            Error::UnsupportedOperationException(m) => m,
            Error::TryFromIntError(m) => m,
            Error::Infallible(m) => m,
            Error::NotFoundException(m) => m,
            Error::ReedSolomonException(m) => m,
            Error::IllegalStateException(m) => m,
            Error::FormatException(m) => m,
        }
    }
}

} // verus!
