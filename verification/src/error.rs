//! What can go wrong when identifiers are delivered.

use crate::text::{append_chars, chars_of, decimal, digits_of, string_of};
use vstd::prelude::*;

verus! {

/// Why the HTTP client gave no response to hand on: the status of a
/// response that it reported as an error, or any other failure by its text.
#[derive(Debug, PartialEq, Eq)]
pub enum TransportError {
    Status(u16),
    Other(String),
}

/// Why a delivery did not take place.
#[derive(Debug, PartialEq, Eq)]
pub enum Error {
    /// The match id lies above the sanity ceiling.
    MatchIdTooLarge,
    /// The collector answered, but not with success; its answer is kept.
    FailedToIngest(String),
    /// The client failed before a response could be read.
    Ureq(TransportError),
}

/// The text that describes `error`.
pub open spec fn message_of(error: Error) -> Seq<char> {
    match error {
        Error::MatchIdTooLarge => "Match ID too large"@,
        Error::FailedToIngest(body) => "Failed to ingest: "@ + body@,
        Error::Ureq(TransportError::Status(code)) => "Ureq error: StatusCode("@ + digits_of(
            code as nat,
        ) + ")"@,
        Error::Ureq(TransportError::Other(text)) => "Ureq error: "@ + text@,
    }
}

impl Error {
    /// A description of the error for logs.
    pub fn message(&self) -> (r: String)
        ensures
            r@ == message_of(*self),
    {
        let mut out: Vec<char> = Vec::new();
        match self {
            Error::MatchIdTooLarge => {
                append_chars(&mut out, &chars_of("Match ID too large"));
                assert(out@ =~= "Match ID too large"@);
            },
            Error::FailedToIngest(body) => {
                append_chars(&mut out, &chars_of("Failed to ingest: "));
                append_chars(&mut out, &chars_of(body.as_str()));
                assert(out@ =~= "Failed to ingest: "@ + body@);
            },
            Error::Ureq(TransportError::Status(code)) => {
                append_chars(&mut out, &chars_of("Ureq error: StatusCode("));
                append_chars(&mut out, &decimal(*code as u64));
                append_chars(&mut out, &chars_of(")"));
                assert(out@ =~= "Ureq error: StatusCode("@ + digits_of(*code as nat) + ")"@);
            },
            Error::Ureq(TransportError::Other(text)) => {
                append_chars(&mut out, &chars_of("Ureq error: "));
                append_chars(&mut out, &chars_of(text.as_str()));
                assert(out@ =~= "Ureq error: "@ + text@);
            },
        }
        string_of(&out)
    }
}

} // verus!
