//! The three failure kinds of the pipeline and their fixed messages.

use vstd::prelude::*;

verus! {

/// A run fails in exactly one of three ways: the request got no response,
/// the response body could not be read as text, or the body text did not
/// decode as the expected JSON shape.
#[derive(Clone, Copy, Debug, PartialEq, Eq, Structural)]
pub enum RequestError {
    APIResponseError,
    BodyExtractionError,
    JSONParsingError,
}

/// The one sentence shown for each failure kind.
pub open spec fn message_of(e: RequestError) -> Seq<char> {
    match e {
        RequestError::APIResponseError => "No response from API."@,
        RequestError::BodyExtractionError => "Couldn't parse API response body."@,
        RequestError::JSONParsingError => "Couldn't parse body into JSON."@,
    }
}

/// Maps each failure kind to the one sentence shown for it.
pub fn error_message(e: &RequestError) -> (r: String)
    ensures
        r@ == message_of(*e),
{
    match e {
        RequestError::APIResponseError => String::from_str("No response from API."),
        RequestError::BodyExtractionError => String::from_str("Couldn't parse API response body."),
        RequestError::JSONParsingError => String::from_str("Couldn't parse body into JSON."),
    }
}

} // verus!
