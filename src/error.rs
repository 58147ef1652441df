use vstd::prelude::*;
use vstd::string::*;

verus! {

/// The ways an operation on the ledger fails; each carries a message for people.
#[derive(Clone, Debug, PartialEq)]
pub enum AppError {
    /// The store could not do what was asked.
    Database(String),
    /// A value could not be turned into or read from text.
    Serialization(String),
    /// A referenced record does not exist.
    NotFound(String),
    /// The caller gave a malformed or empty value.
    InvalidInput(String),
    /// The change would break an invariant, such as a second running entry.
    AlreadyExists(String),
    /// The target exists but is in the wrong state.
    OperationFailed(String),
    /// Reading or writing a file failed.
    Io(String),
}

impl AppError {
    /// The words that open the message of each kind of error.
    pub open spec fn heading(&self) -> Seq<char> {
        match self {
            AppError::Database(_) => "Database error: "@,
            AppError::Serialization(_) => "Serialization error: "@,
            AppError::NotFound(_) => "Not found: "@,
            AppError::InvalidInput(_) => "Invalid input: "@,
            AppError::AlreadyExists(_) => "Already exists: "@,
            AppError::OperationFailed(_) => "Operation failed: "@,
            AppError::Io(_) => "IO error: "@,
        }
    }

    /// The detail that the error carries.
    pub open spec fn detail(&self) -> Seq<char> {
        match self {
            AppError::Database(s) => s@,
            AppError::Serialization(s) => s@,
            AppError::NotFound(s) => s@,
            AppError::InvalidInput(s) => s@,
            AppError::AlreadyExists(s) => s@,
            AppError::OperationFailed(s) => s@,
            AppError::Io(s) => s@,
        }
    }

    /// The message shown to people: the heading of the kind, then the detail.
    pub fn message(&self) -> (r: String)
        ensures
            r@ == self.heading() + self.detail(),
    {
        let (head, detail) = match self {
            AppError::Database(s) => ("Database error: ", s),
            AppError::Serialization(s) => ("Serialization error: ", s),
            AppError::NotFound(s) => ("Not found: ", s),
            AppError::InvalidInput(s) => ("Invalid input: ", s),
            AppError::AlreadyExists(s) => ("Already exists: ", s),
            AppError::OperationFailed(s) => ("Operation failed: ", s),
            AppError::Io(s) => ("IO error: ", s),
        };
        let mut r = head.to_owned();
        r.append(detail.as_str());
        r
    }
}

} // verus!
