//! The presenter's line format and ordering.

use ucf_garages::garage::Garage;
use ucf_garages::present::{format_garage_line, format_garages_filled_and_total};

fn garage(name: &str, max: u16, filled: u16, left: u16, percent: &str) -> Garage {
    Garage {
        name: name.to_string(),
        max_spaces: max,
        spaces_filled: filled,
        spaces_left: left,
        percent_full: percent.to_string(),
    }
}

#[test]
fn line_for_spec_example() {
    let g = garage("Garage A", 100, 40, 60, "0.4");
    assert_eq!(format_garage_line(&g, "/"), "Garage A\t40/100");
}

#[test]
fn line_uses_given_delimiter() {
    let g = garage("B", 1200, 7, 1193, "0.005");
    assert_eq!(format_garage_line(&g, " of "), "B\t7 of 1200");
}

#[test]
fn lines_follow_collection_order() {
    let a = garage("A", 10, 1, 9, "0.1");
    let b = garage("B", 20, 2, 18, "0.1");
    let c = garage("C", 30, 3, 27, "0.1");
    let lines = format_garages_filled_and_total(&vec![a, b, c], "/");
    assert_eq!(lines, vec!["A\t1/10", "B\t2/20", "C\t3/30"]);

    let a = garage("A", 10, 1, 9, "0.1");
    let b = garage("B", 20, 2, 18, "0.1");
    let c = garage("C", 30, 3, 27, "0.1");
    let lines = format_garages_filled_and_total(&vec![c, a, b], "/");
    assert_eq!(lines, vec!["C\t3/30", "A\t1/10", "B\t2/20"]);
}

#[test]
fn no_lines_for_empty_collection() {
    let lines = format_garages_filled_and_total(&Vec::new(), "/");
    assert!(lines.is_empty());
}
