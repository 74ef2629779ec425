use vstd::prelude::*;
use vstd::string::StringExecFns;

verus! {

#[verifier::external_type_specification]
#[verifier::external_body]
pub struct ExIoError(std::io::Error);

/// Errors reported by the storage engine.
#[derive(Debug)]
pub enum Error {
    InvalidArgument(String),
    Corruption(String),
    Io(std::io::Error),
    Closed,
    Unsupported(&'static str),
    TransactionConflict(String),
}

/// Result type used across the engine.
pub type Result<T> = core::result::Result<T, Error>;

impl From<std::io::Error> for Error {
    fn from(value: std::io::Error) -> (r: Self) {
        Error::Io(value)
    }
}

impl vstd::std_specs::convert::FromSpecImpl<std::io::Error> for Error {
    open spec fn obeys_from_spec() -> bool {
        true
    }

    open spec fn from_spec(v: std::io::Error) -> Self {
        Error::Io(v)
    }
}

impl Error {
    /// The error as text: a word for its kind, then its message.
    pub fn to_string(&self) -> (r: String)
        ensures
            match self {
                Error::InvalidArgument(m) => r@ == "invalid argument: "@ + m@,
                Error::Corruption(m) => r@ == "corruption: "@ + m@,
                Error::Io(_) => r@.len() >= 10 && r@.subrange(0, 10) == "io error: "@,
                Error::Closed => r@ == "database is closed"@,
                Error::Unsupported(f) => r@ == "unsupported feature: "@ + f@,
                Error::TransactionConflict(m) => r@ == "transaction conflict: "@ + m@,
            },
    {
        let (mut s, rest): (String, String) = match self {
            Error::InvalidArgument(m) => (String::from_str("invalid argument: "), m.clone()),
            Error::Corruption(m) => (String::from_str("corruption: "), m.clone()),
            Error::Io(e) => (String::from_str("io error: "), io_error_text(e)),
            Error::Closed => (String::from_str("database is closed"), String::new()),
            Error::Unsupported(f) => (String::from_str("unsupported feature: "), String::from_str(f)),
            Error::TransactionConflict(m) => (String::from_str("transaction conflict: "), m.clone()),
        };
        s.append(rest.as_str());
        proof {
            reveal_strlit("invalid argument: ");
            reveal_strlit("corruption: ");
            reveal_strlit("io error: ");
            reveal_strlit("database is closed");
            reveal_strlit("unsupported feature: ");
            reveal_strlit("transaction conflict: ");
            assert(self is Io ==> s@.subrange(0, 10) =~= "io error: "@);
            assert(self is Closed ==> s@ =~= "database is closed"@);
        }
        s
    }
}

/// The message of an I/O error, `std::io::Error`'s `to_string`. Nothing is claimed of
/// the text: for an error the operating system reported it is the system's wording.
#[verifier::external_body]
pub(crate) fn io_error_text(e: &std::io::Error) -> String {
    e.to_string()
}

/// Builds a `Corruption` error carrying `message`.
pub fn corruption(message: &str) -> (e: Error)
    ensures
        e matches Error::Corruption(m) && m@ == message@,
{
    Error::Corruption(message.to_owned())
}

/// Builds an `InvalidArgument` error carrying `message`.
pub fn invalid_argument(message: &str) -> (e: Error)
    ensures
        e matches Error::InvalidArgument(m) && m@ == message@,
{
    Error::InvalidArgument(message.to_owned())
}

} // verus!
