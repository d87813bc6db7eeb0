//! What can go wrong.

use vstd::prelude::*;
use vstd::string::*;

verus! {

/// Error of a solver or of the problem that it works on.
#[derive(Clone, Debug)]
pub enum Error {
    /// A parameter has an invalid value.
    InvalidParameter {
        /// What is invalid.
        text: String,
    },
    /// Something happened that should be impossible.
    PotentialBug {
        /// What happened.
        text: String,
    },
    /// Any other error.
    Message {
        /// What went wrong.
        text: String,
    },
}

/// The abstract value of an error.
pub enum ErrorView {
    /// A parameter has an invalid value.
    InvalidParameter(Seq<char>),
    /// Something happened that should be impossible.
    PotentialBug(Seq<char>),
    /// Any other error.
    Message(Seq<char>),
}

impl ErrorView {
    /// What went wrong, in words.
    pub open spec fn message(self) -> Seq<char> {
        match self {
            ErrorView::InvalidParameter(text) => "Invalid parameter: \""@ + text + "\""@,
            ErrorView::PotentialBug(text) => "Potential bug: \""@ + text + "\""@,
            ErrorView::Message(text) => text,
        }
    }
}

impl View for Error {
    type V = ErrorView;

    open spec fn view(&self) -> ErrorView {
        match self {
            Error::InvalidParameter { text } => ErrorView::InvalidParameter(text@),
            Error::PotentialBug { text } => ErrorView::PotentialBug(text@),
            Error::Message { text } => ErrorView::Message(text@),
        }
    }
}

/// A result with the abstract value of its error.
pub open spec fn outcome<T>(r: Result<T, Error>) -> Result<T, ErrorView> {
    match r {
        Ok(value) => Ok(value),
        Err(e) => Err(e@),
    }
}

/// A result with the abstract values of what it holds.
pub open spec fn outcome_view<T: View>(r: Result<T, Error>) -> Result<T::V, ErrorView> {
    match r {
        Ok(value) => Ok(value@),
        Err(e) => Err(e@),
    }
}

impl Error {
    /// The error for an invalid parameter.
    pub fn invalid_parameter(text: &str) -> (r: Error)
        ensures
            r@ == ErrorView::InvalidParameter(text@),
    {
        Error::InvalidParameter { text: text.to_string() }
    }

    /// The error for something that should be impossible.
    pub fn potential_bug(text: &str) -> (r: Error)
        ensures
            r@ == ErrorView::PotentialBug(text@),
    {
        Error::PotentialBug { text: text.to_string() }
    }

    /// Any other error.
    pub fn msg(text: &str) -> (r: Error)
        ensures
            r@ == ErrorView::Message(text@),
    {
        Error::Message { text: text.to_string() }
    }

    /// What went wrong, in words.
    pub fn message(&self) -> (r: String)
        ensures
            r@ == self@.message(),
    {
        match self {
            Error::InvalidParameter { text } => {
                let mut r = "Invalid parameter: \"".to_string();
                r.append(text.as_str());
                r.append("\"");
                r
            },
            Error::PotentialBug { text } => {
                let mut r = "Potential bug: \"".to_string();
                r.append(text.as_str());
                r.append("\"");
                r
            },
            Error::Message { text } => {
                let mut r = String::new();
                r.append(text.as_str());
                r
            },
        }
    }
}

} // verus!
