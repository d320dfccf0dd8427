//! The errors of the duplicate finder.

use vstd::prelude::*;

verus! {

/// `std::io::Error`, carried through the library unread.
#[verifier::external_type_specification]
#[verifier::external_body]
pub struct ExIoError(std::io::Error);

/// What can go wrong.
#[derive(Debug)]
pub enum DupyError {
    /// An input/output operation failed.
    IoError(std::io::Error),
    /// The path given does not exist or cannot be reached.
    InvalidPath(String),
    /// The command line is malformed; the text says how.
    InvalidArguments(String),
}

impl DupyError {
    /// The message that describes the error to a user; for an I/O error, its
    /// `Display` text after the prefix.
    pub fn message(&self) -> (r: String)
        ensures
            match self {
                DupyError::IoError(err) => exists|t: String|
                    vstd::string::to_string_from_display_ensures::<std::io::Error>(err, t) && r@ == "I/O error: "@
                        + t@,
                DupyError::InvalidPath(path) => r@ == "Invalid or inaccessible path: "@ + path@,
                DupyError::InvalidArguments(msg) => r@ == "Invalid arguments: "@ + msg@,
            },
    {
        match self {
            DupyError::IoError(err) => {
                let t = err.to_string();
                let r = String::from_str("I/O error: ").concat(t.as_str());
                assert(r@ == "I/O error: "@ + t@);
                r
            },
            DupyError::InvalidPath(path) => {
                String::from_str("Invalid or inaccessible path: ").concat(path.as_str())
            },
            DupyError::InvalidArguments(msg) => {
                String::from_str("Invalid arguments: ").concat(msg.as_str())
            },
        }
    }
}

impl From<std::io::Error> for DupyError {
    fn from(err: std::io::Error) -> (r: DupyError) {
        DupyError::IoError(err)
    }
}

impl vstd::std_specs::convert::FromSpecImpl<std::io::Error> for DupyError {
    open spec fn obeys_from_spec() -> bool {
        true
    }

    open spec fn from_spec(err: std::io::Error) -> DupyError {
        DupyError::IoError(err)
    }
}

} // verus!
