use rg_core::search::{match_line, search_literal, search_regex};
use rg_core::{MatchLine, SearchError};

type TestResult<T> = core::result::Result<T, Box<dyn std::error::Error>>;

fn found(r: Result<Vec<MatchLine>, SearchError>) -> Vec<MatchLine> {
    match r {
        Ok(v) => v,
        Err(e) => panic!("search failed: {:?}", e),
    }
}

#[test]
fn finds_literal_matches() -> TestResult<()> {
    let input = "alpha\nbeta\nalp";
    let matches = found(search_literal(input, "alp"));
    assert_eq!(matches.len(), 2);
    assert_eq!(matches[0].line_number, 1);
    assert_eq!(matches[1].line_number, 3);
    Ok(())
}

#[test]
fn finds_regex_matches_ignore_case() -> TestResult<()> {
    let input = "Alpha\nbeta\nALP";
    let matches = found(search_regex(input, "alp", true));
    assert_eq!(matches.len(), 2);
    Ok(())
}

#[test]
fn literal_end_to_end_records() {
    let matches = found(search_literal("alpha\nbeta\nalp", "alp"));
    assert_eq!(
        matches,
        vec![
            MatchLine { line_number: 1, line: "alpha".to_string(), spans: vec![0..3] },
            MatchLine { line_number: 3, line: "alp".to_string(), spans: vec![0..3] },
        ]
    );
}

#[test]
fn regex_end_to_end_ignore_case_line_numbers() {
    let matches = found(search_regex("Alpha\nbeta\nALP", "alp", true));
    let numbers: Vec<usize> = matches.iter().map(|m| m.line_number).collect();
    assert_eq!(numbers, vec![1, 3]);
    assert_eq!(matches[0].spans, vec![0..3]);
    assert_eq!(matches[1].line, "ALP");
}

#[test]
fn literal_empty_pattern_is_refused() {
    assert!(matches!(search_literal("abc", ""), Err(SearchError::EmptyPattern)));
    assert!(matches!(search_literal("", ""), Err(SearchError::EmptyPattern)));
}

#[test]
fn regex_empty_pattern_is_refused() {
    assert!(matches!(search_regex("abc", "", false), Err(SearchError::EmptyPattern)));
    assert!(matches!(search_regex("abc", "", true), Err(SearchError::EmptyPattern)));
}

#[test]
fn regex_invalid_syntax_is_refused() {
    assert!(matches!(search_regex("a(b", "a(b", false), Err(SearchError::Regex(_))));
    assert!(matches!(search_regex("x", "[z-a]", true), Err(SearchError::Regex(_))));
    assert!(matches!(search_regex("x", "*", false), Err(SearchError::Regex(_))));
}

#[test]
fn literal_search_is_case_sensitive() {
    assert!(found(search_literal("Alpha", "alpha")).is_empty());
}

#[test]
fn regex_ignore_case_spans_whole_word() {
    let matches = found(search_regex("Alpha", "alpha", true));
    assert_eq!(matches.len(), 1);
    assert_eq!(matches[0].line_number, 1);
    assert_eq!(matches[0].spans, vec![0..5]);
}

#[test]
fn regex_case_sensitive_without_flag() {
    assert!(found(search_regex("Alpha", "alpha", false)).is_empty());
}

#[test]
fn literal_overlapping_occurrences_are_taken_greedily() {
    let matches = found(search_literal("aaaa", "aa"));
    assert_eq!(matches.len(), 1);
    assert_eq!(matches[0].spans, vec![0..2, 2..4]);
}

#[test]
fn literal_odd_run_leaves_the_tail() {
    let matches = found(search_literal("aaaaa", "aa"));
    assert_eq!(matches[0].spans, vec![0..2, 2..4]);
}

#[test]
fn literal_spans_hold_the_pattern() {
    let pattern = "ab";
    for m in found(search_literal("xxabyab\nab\nnone\nabab", pattern)) {
        let mut last_end = 0;
        for (k, s) in m.spans.iter().enumerate() {
            assert_eq!(&m.line[s.clone()], pattern);
            if k > 0 {
                assert!(s.start >= last_end);
            }
            last_end = s.end;
        }
    }
}

#[test]
fn literal_byte_offsets_in_multibyte_text() {
    let matches = found(search_literal("héllo wörld", "llo"));
    assert_eq!(matches[0].spans, vec![3..6]);
    let matches = found(search_literal("ééé", "é"));
    assert_eq!(matches[0].spans, vec![0..2, 2..4, 4..6]);
}

#[test]
fn lines_split_on_crlf_and_trailing_newline() {
    let matches = found(search_literal("ab\r\ncd\r\nab\n", "b"));
    assert_eq!(matches.len(), 2);
    assert_eq!(matches[0].line, "ab");
    assert_eq!(matches[0].line_number, 1);
    assert_eq!(matches[1].line_number, 3);
    assert_eq!(matches[1].line, "ab");
}

#[test]
fn lines_keep_a_lone_carriage_return() {
    let matches = found(search_literal("a\rb", "b"));
    assert_eq!(matches[0].line, "a\rb");
    assert_eq!(matches[0].spans, vec![2..3]);
}

#[test]
fn empty_lines_are_counted() {
    let matches = found(search_literal("\n\nneedle\n\n", "needle"));
    assert_eq!(matches.len(), 1);
    assert_eq!(matches[0].line_number, 3);
}

#[test]
fn empty_input_has_no_matches() {
    assert!(found(search_literal("", "a")).is_empty());
    assert!(found(search_regex("", "a", false)).is_empty());
}

#[test]
fn regex_finds_all_non_overlapping_matches() {
    let matches = found(search_regex("a1b22c333\nnone\n9", "[0-9]+", false));
    assert_eq!(matches.len(), 2);
    assert_eq!(matches[0].spans, vec![1..2, 3..5, 6..9]);
    assert_eq!(matches[1].line_number, 3);
    assert_eq!(matches[1].spans, vec![0..1]);
}

#[test]
fn regex_metacharacters_are_interpreted() {
    let matches = found(search_regex("abc\naXc\nac", "a.c", false));
    let numbers: Vec<usize> = matches.iter().map(|m| m.line_number).collect();
    assert_eq!(numbers, vec![1, 2]);
}

#[test]
fn regex_empty_matches_are_reported() {
    let matches = found(search_regex("ab", "x*", false));
    assert_eq!(matches[0].spans, vec![0..0, 1..1, 2..2]);
}

#[test]
fn match_line_needs_a_span() {
    assert!(match_line(4, "text", vec![]).is_none());
    let m = match_line(4, "text", vec![1..2]);
    assert_eq!(m, Some(MatchLine { line_number: 4, line: "text".to_string(), spans: vec![1..2] }));
}

#[test]
fn regex_records_carry_engine_spans() {
    let matches = found(search_regex("xay\nb\naXa", "a", false));
    assert_eq!(
        matches,
        vec![
            MatchLine { line_number: 1, line: "xay".to_string(), spans: vec![1..2] },
            MatchLine { line_number: 3, line: "aXa".to_string(), spans: vec![0..1, 2..3] },
        ]
    );
}

#[test]
fn regex_span_starts_strictly_increase() {
    for m in found(search_regex("ab\nb\n", "a?", false)) {
        for w in m.spans.windows(2) {
            assert!(w[0].start < w[1].start);
            assert!(w[0].end <= w[1].start);
        }
    }
}
