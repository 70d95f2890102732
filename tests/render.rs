use rg_core::render::highlight_line;
use rg_core::SearchError;

type TestResult<T> = core::result::Result<T, Box<dyn std::error::Error>>;

const OPEN: &str = "\u{1b}[1m\u{1b}[33m";
const CLOSE: &str = "\u{1b}[39m\u{1b}[0m";

fn rendered(line: &str, spans: &[core::ops::Range<usize>]) -> String {
    match highlight_line(line, spans) {
        Ok(s) => s,
        Err(e) => panic!("highlight failed: {:?}", e),
    }
}

fn strip_styles(s: &str) -> String {
    s.replace(OPEN, "").replace(CLOSE, "")
}

#[test]
fn highlights_matches_with_colors() -> TestResult<()> {
    let line = "alpha beta";
    let rendered = rendered(line, &[0..5, 6..7]);
    assert!(rendered.contains("\u{1b}["));
    Ok(())
}

#[test]
fn highlight_exact_output() {
    let out = rendered("alpha beta", &[0..5, 6..7]);
    assert_eq!(out, format!("{OPEN}alpha{CLOSE} {OPEN}b{CLOSE}eta"));
}

#[test]
fn highlight_middle_span() {
    assert_eq!(rendered("xyz", &[1..2]), format!("x{OPEN}y{CLOSE}z"));
}

#[test]
fn highlight_without_spans_is_identity() {
    assert_eq!(rendered("alpha beta", &[]), "alpha beta");
    assert_eq!(rendered("", &[]), "");
    assert_eq!(rendered("héllo\u{1b}[0m", &[]), "héllo\u{1b}[0m");
}

#[test]
fn highlight_start_after_end_is_invalid() {
    assert!(matches!(highlight_line("abcdef", &[3..1]), Err(SearchError::InvalidSpan)));
}

#[test]
fn highlight_end_past_line_is_invalid() {
    assert!(matches!(highlight_line("abc", &[1..4]), Err(SearchError::InvalidSpan)));
    assert!(matches!(highlight_line("abc", &[0..1, 2..9]), Err(SearchError::InvalidSpan)));
}

#[test]
fn highlight_overlapping_spans_are_invalid() {
    assert!(matches!(highlight_line("abcdef", &[0..3, 2..4]), Err(SearchError::InvalidSpan)));
    assert!(matches!(highlight_line("abcdef", &[3..4, 0..1]), Err(SearchError::InvalidSpan)));
}

#[test]
fn highlight_span_inside_a_character_is_invalid() {
    assert!(matches!(highlight_line("é", &[0..1]), Err(SearchError::InvalidSpan)));
    assert!(matches!(highlight_line("aé", &[2..3]), Err(SearchError::InvalidSpan)));
}

#[test]
fn highlight_multibyte_span() {
    assert_eq!(rendered("aéb", &[1..3]), format!("a{OPEN}é{CLOSE}b"));
}

#[test]
fn highlight_adjacent_and_empty_spans() {
    assert_eq!(rendered("ab", &[0..1, 1..2]), format!("{OPEN}a{CLOSE}{OPEN}b{CLOSE}"));
    assert_eq!(rendered("ab", &[1..1]), format!("a{OPEN}{CLOSE}b"));
}

#[test]
fn highlight_styles_removed_give_back_the_line() {
    let cases: Vec<(&str, Vec<core::ops::Range<usize>>)> = vec![
        ("alpha beta", vec![0..5, 6..7]),
        ("aaaa", vec![0..2, 2..4]),
        ("héllo wörld", vec![1..3, 8..10]),
        ("xyz", vec![3..3]),
    ];
    for (line, spans) in cases {
        let out = rendered(line, &spans);
        assert_ne!(out, line);
        assert_eq!(strip_styles(&out), line);
    }
}

#[test]
fn highlight_repeated_start_is_invalid() {
    assert!(matches!(highlight_line("ab", &[1..1, 1..1]), Err(SearchError::InvalidSpan)));
    assert!(matches!(highlight_line("ab", &[1..1, 1..2]), Err(SearchError::InvalidSpan)));
    assert_eq!(rendered("ab", &[0..0, 1..1]), format!("{OPEN}{CLOSE}a{OPEN}{CLOSE}b"));
}
