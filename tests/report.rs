use rg_core::report::{render_report, search_and_render};
use rg_core::{MatchLine, SearchError};

const OPEN: &str = "\u{1b}[1m\u{1b}[33m";
const CLOSE: &str = "\u{1b}[39m\u{1b}[0m";

#[test]
fn report_of_literal_search() {
    let out = search_and_render("alpha\nbeta\nalp", "alp", false, false).unwrap();
    assert_eq!(out, format!("1:{OPEN}alp{CLOSE}ha\n3:{OPEN}alp{CLOSE}\n"));
}

#[test]
fn report_of_regex_search() {
    let out = search_and_render("Alpha\nbeta\nALP", "alp", true, true).unwrap();
    assert_eq!(out, format!("1:{OPEN}Alp{CLOSE}ha\n3:{OPEN}ALP{CLOSE}\n"));
}

#[test]
fn report_is_empty_without_matches() {
    assert_eq!(search_and_render("alpha\nbeta\n", "zeta", false, false).unwrap(), "");
    assert_eq!(search_and_render("alpha\nbeta\n", "z+", true, false).unwrap(), "");
}

#[test]
fn report_numbers_past_nine() {
    let input = "x\n".repeat(11) + "hit";
    let out = search_and_render(&input, "hit", false, false).unwrap();
    assert_eq!(out, format!("12:{OPEN}hit{CLOSE}\n"));
}

#[test]
fn report_errors_come_from_the_search() {
    assert!(matches!(search_and_render("a", "", false, false), Err(SearchError::EmptyPattern)));
    assert!(matches!(search_and_render("a", "", true, true), Err(SearchError::EmptyPattern)));
    assert!(matches!(search_and_render("a", "(", true, false), Err(SearchError::Regex(_))));
}

#[test]
fn report_rejects_a_bad_record() {
    let bad = vec![MatchLine { line_number: 1, line: "ab".to_string(), spans: vec![1..5] }];
    assert!(matches!(render_report(&bad), Err(SearchError::InvalidSpan)));
}

#[test]
fn report_of_given_records() {
    let records = vec![
        MatchLine { line_number: 2, line: "ab".to_string(), spans: vec![1..2] },
        MatchLine { line_number: 105, line: "cd".to_string(), spans: vec![0..1] },
    ];
    let out = render_report(&records).unwrap();
    assert_eq!(out, format!("2:a{OPEN}b{CLOSE}\n105:{OPEN}c{CLOSE}d\n"));
}
