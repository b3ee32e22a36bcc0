//! What can go wrong with a terminal request.

use vstd::prelude::*;
use vstd::string::to_string_from_display_ensures;

verus! {

/// The standard I/O error, carried through unchanged.
#[verifier::external_type_specification]
#[verifier::external_body]
pub struct ExIoError(std::io::Error);

/// A terminal request that did not go through.
#[derive(Debug)]
pub enum Error {
    /// No live terminal has the id.
    NotFound,
    /// Writing to the terminal failed.
    Io(std::io::Error),
    /// The pseudo-terminal layer refused, with its message.
    Pty(String),
}

impl Error {
    /// The error of the pseudo-terminal layer whose message is `e`'s text.
    pub fn pty(e: impl std::fmt::Display) -> (err: Self)
        ensures
            err matches Error::Pty(msg) && to_string_from_display_ensures(&e, msg),
    {
        Error::Pty(e.to_string())
    }

    /// Whether `text` is this error's message.
    pub open spec fn is_message(&self, text: Seq<char>) -> bool {
        match self {
            Error::NotFound => text == "terminal not found"@,
            Error::Io(e) => exists|io_text: String|
                to_string_from_display_ensures(e, io_text) && text == "io error: "@ + io_text@,
            Error::Pty(msg) => text == "pty error: "@ + msg@,
        }
    }

    /// The message shown for this error: "terminal not found", "io error: " and the I/O
    /// error's text, or "pty error: " and the pseudo-terminal layer's message.
    pub fn to_string(&self) -> (text: String)
        ensures
            self.is_message(text@),
    {
        match self {
            Error::NotFound => String::from_str("terminal not found"),
            Error::Io(e) => {
                let io_text = e.to_string();
                let mut text = String::from_str("io error: ");
                text.append(io_text.as_str());
                text
            },
            Error::Pty(msg) => {
                let mut text = String::from_str("pty error: ");
                text.append(msg.as_str());
                text
            },
        }
    }
}

impl From<std::io::Error> for Error {
    /// An I/O error, carried as it is.
    fn from(e: std::io::Error) -> (err: Self) {
        Error::Io(e)
    }
}

impl vstd::std_specs::convert::FromSpecImpl<std::io::Error> for Error {
    open spec fn obeys_from_spec() -> bool {
        true
    }

    open spec fn from_spec(v: std::io::Error) -> Self {
        Error::Io(v)
    }
}

} // verus!
