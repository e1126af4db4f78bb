use vstd::prelude::*;
use vstd::string::StringExecFns;

verus! {

/// The ways an operation of this library can fail.
#[derive(Debug)]
pub enum Error {
    /// The bytes read do not form what they should: truncated input, a bad varint, a checksum
    /// or magic mismatch, sizes that contradict each other.
    Corruption(String),
    /// The caller broke the protocol of a builder.
    InvalidArgument(String),
    /// The key is absent.
    NotFound,
    /// The underlying file failed to read or write; `interrupted` says that the operation
    /// was cut short by a signal and may be tried again.
    IO { interrupted: bool, message: String },
}

/// The text that `Error::to_string` gives for each variant.
pub open spec fn error_text(e: Error) -> Seq<char> {
    match e {
        Error::Corruption(m) => "data corruption: "@ + m@,
        Error::InvalidArgument(m) => "invalid argument: "@ + m@,
        Error::NotFound => "key seeking failed"@,
        Error::IO { interrupted, message } => "I/O operation error: "@ + message@,
    }
}

impl Error {
    /// A corruption error carrying `msg`.
    pub fn corruption(msg: &str) -> (e: Error)
        ensures
            e matches Error::Corruption(m) && m@ == msg@,
    {
        Error::Corruption(String::from_str(msg))
    }

    /// An invalid-argument error carrying `msg`.
    pub fn invalid_argument(msg: &str) -> (e: Error)
        ensures
            e matches Error::InvalidArgument(m) && m@ == msg@,
    {
        Error::InvalidArgument(String::from_str(msg))
    }

    /// An I/O error carrying `msg`, not one of an interrupted operation.
    pub fn io(msg: &str) -> (e: Error)
        ensures
            e matches Error::IO { interrupted, message } && !interrupted && message@ == msg@,
    {
        Error::IO { interrupted: false, message: String::from_str(msg) }
    }

    /// Whether this is a `Corruption`.
    pub fn is_corruption(&self) -> (b: bool)
        ensures
            b == (*self is Corruption),
    {
        match self {
            Error::Corruption(_) => true,
            _ => false,
        }
    }

    /// Renders the error as text: a prefix naming the kind, then the message.
    pub fn to_string(&self) -> (s: String)
        ensures
            s@ == error_text(*self),
    {
        match self {
            Error::Corruption(m) => String::from_str("data corruption: ").concat(m.as_str()),
            Error::InvalidArgument(m) => String::from_str("invalid argument: ").concat(m.as_str()),
            Error::NotFound => String::from_str("key seeking failed"),
            Error::IO { interrupted, message } => String::from_str("I/O operation error: ").concat(
                message.as_str(),
            ),
        }
    }

    /// A copy of the error.
    pub fn duplicate(&self) -> (e: Error)
        ensures
            same_error(e, *self),
    {
        match self {
            Error::Corruption(m) => Error::Corruption(String::from_str(m.as_str())),
            Error::InvalidArgument(m) => Error::InvalidArgument(String::from_str(m.as_str())),
            Error::NotFound => Error::NotFound,
            Error::IO { interrupted, message } => Error::IO {
                interrupted: *interrupted,
                message: String::from_str(message.as_str()),
            },
        }
    }
}

/// Two errors of the same kind with the same message.
pub open spec fn same_error(a: Error, b: Error) -> bool {
    match (a, b) {
        (Error::Corruption(x), Error::Corruption(y)) => x@ == y@,
        (Error::InvalidArgument(x), Error::InvalidArgument(y)) => x@ == y@,
        (Error::NotFound, Error::NotFound) => true,
        (
            Error::IO { interrupted: i, message: x },
            Error::IO { interrupted: j, message: y },
        ) => i == j && x@ == y@,
        _ => false,
    }
}

} // verus!
