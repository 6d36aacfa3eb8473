//! Decoding and encoding the garage payload.

use ucf_garages::error::RequestError;
use ucf_garages::garage::{Garage, GarageCollection};
use ucf_garages::encode::encode_garages_json;
use ucf_garages::parse::create_ucf_garages_api_object;

fn garage(name: &str, max: u16, filled: u16, left: u16, percent: &str) -> Garage {
    Garage {
        name: name.to_string(),
        max_spaces: max,
        spaces_filled: filled,
        spaces_left: left,
        percent_full: percent.to_string(),
    }
}

#[test]
fn round_trip_one_record() {
    let c = GarageCollection { garages: vec![garage("Garage A", 100, 40, 60, "0.4")] };
    let text = encode_garages_json(&c);
    assert_eq!(
        text,
        "{\"garages\":[{\"max_spaces\":100,\"name\":\"Garage A\",\"percent_full\":0.4,\"spaces_filled\":40,\"spaces_left\":60}]}"
    );
    let back = create_ucf_garages_api_object(&text).unwrap();
    assert_eq!(back.garages.len(), 1);
    let g = &back.garages[0];
    assert_eq!(g.name, "Garage A");
    assert_eq!(g.max_spaces, 100);
    assert_eq!(g.spaces_filled, 40);
    assert_eq!(g.spaces_left, 60);
    assert_eq!(g.percent_full, "0.4");
}

#[test]
fn round_trip_many_records_and_orders() {
    let records = vec![
        garage("B", 600, 0, 600, "0"),
        garage("A", 100, 40, 60, "4e-1"),
        garage("C", 65535, 65535, 0, "100.0"),
    ];
    let c = GarageCollection { garages: records };
    let text = encode_garages_json(&c);
    let back = create_ucf_garages_api_object(&text).unwrap();
    assert_eq!(back.garages.len(), 3);
    assert_eq!(back.garages[0].name, "B");
    assert_eq!(back.garages[1].name, "A");
    assert_eq!(back.garages[2].name, "C");
    assert_eq!(back.garages[1].percent_full, "4e-1");
    assert_eq!(back.garages[2].max_spaces, 65535);
}

#[test]
fn round_trip_name_with_escapes() {
    let c = GarageCollection { garages: vec![garage("a\"b\\c\u{0007}", 1, 0, 1, "0.0")] };
    let text = encode_garages_json(&c);
    let back = create_ucf_garages_api_object(&text).unwrap();
    assert_eq!(back.garages[0].name, "a\"b\\c\u{0007}");
}

#[test]
fn encoded_text_is_plain_json() {
    let c = GarageCollection { garages: vec![garage("Garage A", 100, 40, 60, "0.4")] };
    let text = encode_garages_json(&c);
    let v: serde_json::Value = serde_json::from_str(&text).unwrap();
    assert_eq!(v["garages"][0]["name"], serde_json::Value::from("Garage A"));
    assert_eq!(v["garages"][0]["max_spaces"], serde_json::Value::from(100));
    assert_eq!(v["garages"][0]["spaces_filled"], serde_json::Value::from(40));
    assert_eq!(v["garages"][0]["spaces_left"], serde_json::Value::from(60));
    assert_eq!(v["garages"][0]["percent_full"], serde_json::Value::from(0.4));
}

#[test]
fn parse_rejects_non_json() {
    let r = create_ucf_garages_api_object("not json");
    assert_eq!(r.unwrap_err(), RequestError::JSONParsingError);
}

#[test]
fn parse_rejects_missing_field() {
    let r = create_ucf_garages_api_object("{\"garages\":[{\"name\":\"A\"}]}");
    assert_eq!(r.unwrap_err(), RequestError::JSONParsingError);
}

#[test]
fn parse_accepts_spec_body() {
    let body = "{\"garages\":[{\"name\":\"Garage A\",\"max_spaces\":100,\"spaces_filled\":40,\"spaces_left\":60,\"percent_full\":0.4}]}";
    let c = create_ucf_garages_api_object(body).unwrap();
    assert_eq!(c.garages.len(), 1);
    assert_eq!(c.garages[0].name, "Garage A");
    assert_eq!(c.garages[0].max_spaces, 100);
    assert_eq!(c.garages[0].spaces_filled, 40);
    assert_eq!(c.garages[0].spaces_left, 60);
    assert_eq!(c.garages[0].percent_full, "0.4");
}

#[test]
fn parse_accepts_empty_array() {
    let c = create_ucf_garages_api_object("{\"garages\":[]}").unwrap();
    assert_eq!(c.garages.len(), 0);
}

#[test]
fn parse_accepts_whitespace_and_unknown_fields() {
    let body = " {\n \"note\": {\"a\": [1, true, null]},\n \"garages\" : [ {\"name\":\"A\", \"extra\": -2.5e3, \"max_spaces\": 10, \"spaces_filled\": 3, \"spaces_left\": 7, \"percent_full\": 30} ]\n} ";
    let c = create_ucf_garages_api_object(body).unwrap();
    assert_eq!(c.garages.len(), 1);
    assert_eq!(c.garages[0].spaces_left, 7);
    assert_eq!(c.garages[0].percent_full, "30");
}

#[test]
fn parse_decodes_escaped_names() {
    let body = "{\"garages\":[{\"name\":\"\\u0041\\n\\\"x\\\\\",\"max_spaces\":1,\"spaces_filled\":0,\"spaces_left\":1,\"percent_full\":0}]}";
    let c = create_ucf_garages_api_object(body).unwrap();
    assert_eq!(c.garages[0].name, "A\n\"x\\");
}

#[test]
fn parse_decodes_surrogate_pairs() {
    let body = "{\"garages\":[{\"name\":\"\\uD83D\\uDE00\",\"max_spaces\":1,\"spaces_filled\":0,\"spaces_left\":1,\"percent_full\":0}]}";
    let c = create_ucf_garages_api_object(body).unwrap();
    assert_eq!(c.garages[0].name, "\u{1F600}");
}

#[test]
fn parse_rejects_lone_surrogate() {
    let body = "{\"garages\":[{\"name\":\"\\uD83D\",\"max_spaces\":1,\"spaces_filled\":0,\"spaces_left\":1,\"percent_full\":0}]}";
    assert!(create_ucf_garages_api_object(body).is_err());
}

#[test]
fn parse_rejects_wrong_types() {
    let body = "{\"garages\":[{\"name\":\"A\",\"max_spaces\":\"10\",\"spaces_filled\":3,\"spaces_left\":7,\"percent_full\":0.3}]}";
    assert!(create_ucf_garages_api_object(body).is_err());
    let body2 = "{\"garages\":[{\"name\":\"A\",\"max_spaces\":1.5,\"spaces_filled\":3,\"spaces_left\":7,\"percent_full\":0.3}]}";
    assert!(create_ucf_garages_api_object(body2).is_err());
    let body3 = "{\"garages\":[{\"name\":\"A\",\"max_spaces\":-1,\"spaces_filled\":3,\"spaces_left\":7,\"percent_full\":0.3}]}";
    assert!(create_ucf_garages_api_object(body3).is_err());
}

#[test]
fn parse_rejects_out_of_range_count() {
    let body = "{\"garages\":[{\"name\":\"A\",\"max_spaces\":70000,\"spaces_filled\":3,\"spaces_left\":7,\"percent_full\":0.3}]}";
    assert!(create_ucf_garages_api_object(body).is_err());
}

#[test]
fn parse_rejects_duplicate_known_field() {
    let body = "{\"garages\":[{\"name\":\"A\",\"name\":\"B\",\"max_spaces\":1,\"spaces_filled\":0,\"spaces_left\":1,\"percent_full\":0}]}";
    assert!(create_ucf_garages_api_object(body).is_err());
}

#[test]
fn parse_rejects_trailing_text() {
    let body = "{\"garages\":[]} x";
    assert!(create_ucf_garages_api_object(body).is_err());
    let body2 = "{\"garages\":[]}{}";
    assert!(create_ucf_garages_api_object(body2).is_err());
}

#[test]
fn parse_rejects_missing_garages_field() {
    assert!(create_ucf_garages_api_object("{}").is_err());
    assert!(create_ucf_garages_api_object("{\"other\":1}").is_err());
}
