//! The pipeline decisions and the error sentences.

use ucf_garages::error::{RequestError, error_message};
use ucf_garages::pipeline::{FetchOutcome, build_garage_array, build_ucf_garages_api_object};

#[test]
fn no_response_yields_api_response_error() {
    let (result, message) = build_garage_array(FetchOutcome::NoResponse, true);
    assert_eq!(result.unwrap_err(), RequestError::APIResponseError);
    assert_eq!(message.unwrap(), "No response from API.");
}

#[test]
fn unreadable_body_yields_body_extraction_error() {
    let (result, message) = build_garage_array(FetchOutcome::UnreadableBody, true);
    assert_eq!(result.unwrap_err(), RequestError::BodyExtractionError);
    assert_eq!(message.unwrap(), "Couldn't parse API response body.");
}

#[test]
fn bad_body_yields_json_parsing_error() {
    let (result, message) = build_garage_array(FetchOutcome::Body("not json".to_string()), true);
    assert_eq!(result.unwrap_err(), RequestError::JSONParsingError);
    assert_eq!(message.unwrap(), "Couldn't parse body into JSON.");
}

#[test]
fn errors_stay_silent_when_printing_is_off() {
    let (result, message) = build_garage_array(FetchOutcome::NoResponse, false);
    assert_eq!(result.unwrap_err(), RequestError::APIResponseError);
    assert!(message.is_none());
}

#[test]
fn good_body_yields_garages() {
    let body = "{\"garages\":[{\"name\":\"Garage A\",\"max_spaces\":100,\"spaces_filled\":40,\"spaces_left\":60,\"percent_full\":0.4}]}";
    let (result, message) = build_garage_array(FetchOutcome::Body(body.to_string()), true);
    assert!(message.is_none());
    let garages = result.unwrap();
    assert_eq!(garages.len(), 1);
    assert_eq!(garages[0].name, "Garage A");
}

#[test]
fn collection_builder_reports_each_stage() {
    assert_eq!(
        build_ucf_garages_api_object(FetchOutcome::NoResponse).unwrap_err(),
        RequestError::APIResponseError
    );
    assert_eq!(
        build_ucf_garages_api_object(FetchOutcome::UnreadableBody).unwrap_err(),
        RequestError::BodyExtractionError
    );
    let c = build_ucf_garages_api_object(FetchOutcome::Body("{\"garages\":[]}".to_string()))
        .unwrap();
    assert_eq!(c.garages.len(), 0);
}

#[test]
fn each_error_has_its_sentence() {
    assert_eq!(error_message(&RequestError::APIResponseError), "No response from API.");
    assert_eq!(
        error_message(&RequestError::BodyExtractionError),
        "Couldn't parse API response body."
    );
    assert_eq!(error_message(&RequestError::JSONParsingError), "Couldn't parse body into JSON.");
}
