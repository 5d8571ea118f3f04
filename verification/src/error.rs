//! The error type shared by every fallible operation of the library.

use vstd::prelude::*;

verus! {

/// A failure reported by the library.
///
/// Reading a backing file can fail (`IO`), an integer can fail to fit the
/// type a computation needs (`Number`), and a column of the region table can
/// fail to parse (`Parse`, carrying the offending text, the name of the type
/// that was being parsed, and a human-readable reason).
#[derive(Debug, Clone)]
pub enum Error {
    IO { message: String },
    Number,
    Parse { value: String, typename: &'static str, reason: String },
    Unknown,
}

impl Error {
    /// What `message` returns for each variant.
    pub open spec fn message_text(&self) -> Seq<char> {
        match self {
            Error::IO { message } => "an io error occurred: "@ + message@,
            Error::Number => "an error occurred casting between integer types"@,
            Error::Parse { value, typename, reason } => {
                "parsing "@ + typename@ + " from "@ + value@ + ", reason: "@ + reason@
            },
            Error::Unknown => "unknown error"@,
        }
    }

    /// A human-readable rendering of the error.
    pub fn message(&self) -> (r: String)
        ensures
            r@ == self.message_text(),
    {
        match self {
            Error::IO { message } => {
                let mut s = String::from_str("an io error occurred: ");
                s.append(message.as_str());
                s
            },
            Error::Number => String::from_str("an error occurred casting between integer types"),
            Error::Parse { value, typename, reason } => {
                let mut s = String::from_str("parsing ");
                s.append(typename);
                s.append(" from ");
                s.append(value.as_str());
                s.append(", reason: ");
                s.append(reason.as_str());
                s
            },
            Error::Unknown => String::from_str("unknown error"),
        }
    }
}

} // verus!
