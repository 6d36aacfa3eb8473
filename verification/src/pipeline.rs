//! The pipeline decisions: what each fetch outcome becomes, and which
//! message, if any, is shown for a failure.

use vstd::prelude::*;
use vstd::string::StringExecFns;
use crate::error::{RequestError, error_message, message_of};
use crate::garage::{Garage, GarageCollection, garages_view};
use crate::grammar::parse_doc;
use crate::parse::create_ucf_garages_api_object;

verus! {

/// What the unverified edge of the program hands the library: the request
/// got no response, the response body could not be read as text, or the
/// body text itself.
pub enum FetchOutcome {
    NoResponse,
    UnreadableBody,
    Body(String),
}

/// Turns a fetch outcome into the decoded collection or the one error that
/// the stage reaching that outcome owes.
pub fn build_ucf_garages_api_object(outcome: FetchOutcome) -> (r: Result<
    GarageCollection,
    RequestError,
>)
    ensures
        match outcome {
            FetchOutcome::NoResponse => r matches Err(e) && e == RequestError::APIResponseError,
            FetchOutcome::UnreadableBody => r matches Err(e) && e
                == RequestError::BodyExtractionError,
            FetchOutcome::Body(b) => match r {
                Ok(c) => parse_doc(b@) == Some(c@),
                Err(e) => e == RequestError::JSONParsingError && parse_doc(b@) is None,
            },
        },
{
    match outcome {
        FetchOutcome::NoResponse => Err(RequestError::APIResponseError),
        FetchOutcome::UnreadableBody => Err(RequestError::BodyExtractionError),
        FetchOutcome::Body(b) => create_ucf_garages_api_object(b.as_str()),
    }
}

/// Runs the pure part of the pipeline: the garages on success, and on
/// failure the error together with the message to show, when one is asked
/// for.
pub fn build_garage_array(outcome: FetchOutcome, print_if_error: bool) -> (r: (
    Result<Vec<Garage>, RequestError>,
    Option<String>,
))
    ensures
        match outcome {
            FetchOutcome::NoResponse => r.0 matches Err(e) && e
                == RequestError::APIResponseError,
            FetchOutcome::UnreadableBody => r.0 matches Err(e) && e
                == RequestError::BodyExtractionError,
            FetchOutcome::Body(b) => match r.0 {
                Ok(v) => parse_doc(b@) == Some(garages_view(v@)),
                Err(e) => e == RequestError::JSONParsingError && parse_doc(b@) is None,
            },
        },
        match r.0 {
            Ok(_) => r.1 is None,
            Err(e) => if print_if_error {
                r.1 matches Some(m) && m@ == message_of(e)
            } else {
                r.1 is None
            },
        },
{
    match build_ucf_garages_api_object(outcome) {
        Ok(c) => (Ok(c.garages), None),
        Err(e) => {
            let msg: Option<String> = if print_if_error {
                Some(error_message(&e))
            } else {
                None
            };
            (Err(e), msg)
        },
    }
}

} // verus!
