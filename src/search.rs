//! Literal and regular-expression search over the lines of a text.
use vstd::prelude::*;
use vstd::string::*;
use vstd::utf8::*;

use crate::engine::{compile, find_spans, regex_accepts, regex_spans};
use crate::error::SearchError;
use crate::lines::{lines_of, split_first_line};
use crate::model::{span_fits, span_pairs, spans_valid, MatchLine, MatchLineView};

verus! {

/// `pat` occurs in `line` at byte offset `i`.
pub open spec fn occurs_at(line: Seq<u8>, pat: Seq<u8>, i: int) -> bool {
    0 <= i && i + pat.len() <= line.len() && line.subrange(i, i + pat.len()) == pat
}

/// The occurrences that a left-to-right scan from offset `i` takes: where
/// `pat` occurs, take it and resume right after it; elsewhere move one byte on.
pub open spec fn occurrences_from(line: Seq<u8>, pat: Seq<u8>, i: int) -> Seq<(int, int)>
    decreases line.len() - i,
{
    if pat.len() == 0 || i < 0 || i + pat.len() > line.len() {
        seq![]
    } else if occurs_at(line, pat, i) {
        seq![(i, i + pat.len())] + occurrences_from(line, pat, i + pat.len())
    } else {
        occurrences_from(line, pat, i + 1)
    }
}

/// The spans of the non-overlapping occurrences of `pat` in `line`, found greedily from the left.
pub open spec fn literal_spans(line: Seq<u8>, pat: Seq<u8>) -> Seq<(int, int)> {
    occurrences_from(line, pat, 0)
}

/// The records that literal search makes of `lines`: one for each line in
/// which `pat` occurs, numbered from 1, in input order.
pub open spec fn literal_results(lines: Seq<Seq<u8>>, pat: Seq<u8>) -> Seq<MatchLineView>
    decreases lines.len(),
{
    if lines.len() == 0 {
        seq![]
    } else {
        let prev = literal_results(lines.drop_last(), pat);
        let spans = literal_spans(lines.last(), pat);
        if spans.len() > 0 {
            prev.push(MatchLineView { line_number: lines.len() as int, line: lines.last(), spans })
        } else {
            prev
        }
    }
}

/// The models of a sequence of records.
pub open spec fn views(v: Seq<MatchLine>) -> Seq<MatchLineView> {
    v.map_values(|m: MatchLine| m@)
}

proof fn lemma_bytes_empty_iff(s: Seq<char>)
    ensures
        encode_utf8(s).len() == 0 <==> s.len() == 0,
{
    encode_utf8_decode_utf8(s);
}

/// Builds the record of line `line_number`, or nothing when `spans` is empty:
/// a line without a match gets no record.
pub fn match_line(line_number: usize, line: &str, spans: Vec<core::ops::Range<usize>>) -> (r: Option<
    MatchLine,
>)
    ensures
        r is Some <==> spans@.len() > 0,
        r is Some ==> r->Some_0@ == (MatchLineView {
            line_number: line_number as int,
            line: line.spec_bytes(),
            spans: span_pairs(spans@),
        }),
{
    if spans.len() == 0 {
        None
    } else {
        Some(MatchLine { line_number, line: line.to_owned(), spans })
    }
}

fn matches_at(hay: &[u8], pat: &[u8], i: usize) -> (r: bool)
    requires
        i + pat@.len() <= hay@.len() <= usize::MAX,
    ensures
        r == (hay@.subrange(i as int, i + pat@.len()) == pat@),
{
    let m = pat.len();
    let mut j: usize = 0;
    while j < m
        invariant
            j <= m,
            m == pat@.len(),
            i + m <= hay@.len(),
            hay@.len() <= usize::MAX,
            forall|k: int| 0 <= k < j ==> hay@[i + k] == pat@[k],
        decreases m - j,
    {
        if hay[i + j] != pat[j] {
            assert(hay@.subrange(i as int, i + m)[j as int] != pat@[j as int]);
            return false;
        }
        j = j + 1;
    }
    assert(hay@.subrange(i as int, i + m) =~= pat@);
    true
}

fn literal_line_spans(line: &str, pattern: &str) -> (r: Vec<core::ops::Range<usize>>)
    requires
        pattern.spec_bytes().len() > 0,
    ensures
        span_pairs(r@) == literal_spans(line.spec_bytes(), pattern.spec_bytes()),
{
    let hay = line.as_bytes();
    let pat = pattern.as_bytes();
    let n = hay.len();
    let m = pat.len();
    let ghost h = hay@;
    let ghost p = pat@;
    let mut spans: Vec<core::ops::Range<usize>> = Vec::new();
    let mut i: usize = 0;
    while i <= n && m <= n - i
        invariant
            h == hay@,
            p == pat@,
            n == h.len(),
            m == p.len(),
            m > 0,
            i <= n,
            span_pairs(spans@) + occurrences_from(h, p, i as int) == occurrences_from(h, p, 0),
        decreases n - i,
    {
        if matches_at(hay, pat, i) {
            let ghost before = spans@;
            spans.push(core::ops::Range { start: i, end: i + m });
            assert(span_pairs(spans@) =~= span_pairs(before).push((i as int, i + m)));
            assert(span_pairs(spans@) + occurrences_from(h, p, i + m) =~= span_pairs(before) + (
            seq![(i as int, i + m as int)] + occurrences_from(h, p, i + m)));
            i = i + m;
        } else {
            i = i + 1;
        }
    }
    assert(span_pairs(spans@) =~= span_pairs(spans@) + occurrences_from(h, p, i as int));
    spans
}

/// Finds every line of `input` that holds `pattern` as a substring, with the
/// non-overlapping occurrences of `pattern` in it, found greedily from the
/// left. Case is significant. An empty pattern is refused.
pub fn search_literal(input: &str, pattern: &str) -> (r: Result<Vec<MatchLine>, SearchError>)
    ensures
        r is Err <==> pattern@.len() == 0,
        r is Err ==> r->Err_0 is EmptyPattern,
        r is Ok ==> views(r->Ok_0@) == literal_results(
            lines_of(input.spec_bytes()),
            pattern.spec_bytes(),
        ),
        r is Ok ==> forall|k: int|
            0 <= k < r->Ok_0@.len() ==> (#[trigger] r->Ok_0@[k])@.well_formed(),
{
    if pattern.is_empty() {
        return Err(SearchError::EmptyPattern);
    }
    proof {
        lemma_bytes_empty_iff(pattern@);
    }
    let ghost p = pattern.spec_bytes();
    let total = input.as_bytes().len();
    let mut matches: Vec<MatchLine> = Vec::new();
    let mut rest: &str = input;
    let mut number: usize = 0;
    let ghost mut done: Seq<Seq<u8>> = seq![];
    assert(done + lines_of(rest.spec_bytes()) =~= lines_of(input.spec_bytes()));
    while rest.len() > 0
        invariant
            p == pattern.spec_bytes(),
            p.len() > 0,
            total == input.spec_bytes().len(),
            lines_of(input.spec_bytes()) == done + lines_of(rest.spec_bytes()),
            number == done.len(),
            number + rest.spec_bytes().len() <= total,
            views(matches@) == literal_results(done, p),
        decreases rest.spec_bytes().len(),
    {
        let (line, tail) = split_first_line(rest);
        let spans = literal_line_spans(line, pattern);
        number = number + 1;
        let ghost before = matches@;
        let found = match_line(number, line, spans);
        match found {
            Some(m) => {
                matches.push(m);
                assert(views(matches@) =~= views(before).push(m@));
            },
            None => {},
        }
        proof {
            let next = done.push(line.spec_bytes());
            assert(next.drop_last() =~= done);
            assert(next + lines_of(tail.spec_bytes()) =~= done + (seq![line.spec_bytes()]
                + lines_of(tail.spec_bytes())));
            done = next;
        }
        rest = tail;
    }
    assert(done =~= done + lines_of(rest.spec_bytes()));
    proof {
        encode_utf8_valid_utf8(pattern@);
        lemma_literal_results_spans(done, p);
        assert forall|k: int| 0 <= k < matches@.len() implies (#[trigger] matches@[k])@.well_formed() by {
            assert(views(matches@)[k] == matches@[k]@);
            encode_utf8_valid_utf8(matches@[k].line@);
            lemma_literal_spans_fit(matches@[k]@.line, p);
        }
    }
    Ok(matches)
}

/// The pattern that the engine compiles: `pattern` itself, or with the inline
/// flag `(?i)` in front when case is to be ignored.
pub open spec fn engine_pattern(pattern: Seq<char>, ignore_case: bool) -> Seq<char> {
    if ignore_case {
        seq!['(', '?', 'i', ')'] + pattern
    } else {
        pattern
    }
}

/// The records that regular-expression search with `pattern` makes of
/// `lines`: one for each line in which the engine finds a match, numbered
/// from 1, in input order, with the engine's spans.
pub open spec fn regex_results(lines: Seq<Seq<u8>>, pattern: Seq<char>) -> Seq<MatchLineView>
    decreases lines.len(),
{
    if lines.len() == 0 {
        seq![]
    } else {
        let prev = regex_results(lines.drop_last(), pattern);
        let spans = regex_spans(pattern, lines.last());
        if spans.len() > 0 {
            prev.push(MatchLineView { line_number: lines.len() as int, line: lines.last(), spans })
        } else {
            prev
        }
    }
}

/// Finds every line of `input` in which the regular expression `pattern`
/// matches, with the engine's leftmost non-overlapping matches in it. With
/// `ignore_case` the pattern matches without regard to case. An empty pattern
/// is refused, and so is one that the engine does not compile.
pub fn search_regex(input: &str, pattern: &str, ignore_case: bool) -> (r: Result<
    Vec<MatchLine>,
    SearchError,
>)
    ensures
        pattern@.len() == 0 ==> r is Err && r->Err_0 is EmptyPattern,
        pattern@.len() > 0 && !regex_accepts(engine_pattern(pattern@, ignore_case)) ==> r is Err
            && r->Err_0 is Regex,
        r is Ok <==> pattern@.len() > 0 && regex_accepts(engine_pattern(pattern@, ignore_case)),
        r is Ok ==> views(r->Ok_0@) == regex_results(
            lines_of(input.spec_bytes()),
            engine_pattern(pattern@, ignore_case),
        ),
        r is Ok ==> forall|k: int|
            0 <= k < r->Ok_0@.len() ==> (#[trigger] r->Ok_0@[k])@.well_formed(),
{
    if pattern.is_empty() {
        return Err(SearchError::EmptyPattern);
    }
    let full: String = if ignore_case {
        let mut flagged = "(?i)".to_owned();
        proof {
            reveal_strlit("(?i)");
        }
        flagged.append(pattern);
        flagged
    } else {
        pattern.to_owned()
    };
    let ghost fp = engine_pattern(pattern@, ignore_case);
    assert(full@ == fp);
    let re = match compile(full.as_str()) {
        Ok(re) => re,
        Err(e) => {
            return Err(SearchError::Regex(e));
        },
    };
    let total = input.as_bytes().len();
    let mut matches: Vec<MatchLine> = Vec::new();
    let mut rest: &str = input;
    let mut number: usize = 0;
    let ghost mut done: Seq<Seq<u8>> = seq![];
    assert(done + lines_of(rest.spec_bytes()) =~= lines_of(input.spec_bytes()));
    while rest.len() > 0
        invariant
            re.source() == fp,
            total == input.spec_bytes().len(),
            lines_of(input.spec_bytes()) == done + lines_of(rest.spec_bytes()),
            number == done.len(),
            number + rest.spec_bytes().len() <= total,
            views(matches@) == regex_results(done, fp),
            forall|k: int| 0 <= k < matches@.len() ==> (#[trigger] matches@[k])@.well_formed(),
        decreases rest.spec_bytes().len(),
    {
        let (line, tail) = split_first_line(rest);
        let spans = find_spans(&re, line);
        number = number + 1;
        let ghost before = matches@;
        let ghost next = done.push(line.spec_bytes());
        let found = match_line(number, line, spans);
        match found {
            Some(m) => {
                matches.push(m);
                assert(views(matches@) =~= views(before).push(m@));
                assert forall|k: int| 0 <= k < matches@.len() implies (
                #[trigger] matches@[k])@.well_formed() by {
                    if k < before.len() {
                        assert(matches@[k] == before[k]);
                    }
                }
            },
            None => {
                assert(matches@ == before);
            },
        }
        proof {
            assert(next.drop_last() =~= done);
            assert(next + lines_of(tail.spec_bytes()) =~= done + (seq![line.spec_bytes()]
                + lines_of(tail.spec_bytes())));
            done = next;
        }
        rest = tail;
    }
    assert(done =~= done + lines_of(rest.spec_bytes()));
    Ok(matches)
}

/// Every span that the literal scan from `i` takes is an occurrence of `pat`
/// starting at or after `i`, and each one starts at or after the end of the
/// one before it.
pub proof fn lemma_occurrences_from_sound(line: Seq<u8>, pat: Seq<u8>, i: int)
    requires
        pat.len() > 0,
    ensures
        forall|k: int|
            0 <= k < occurrences_from(line, pat, i).len() ==> {
                let s = #[trigger] occurrences_from(line, pat, i)[k];
                &&& s.0 >= i
                &&& s.1 == s.0 + pat.len()
                &&& occurs_at(line, pat, s.0)
            },
        forall|k: int|
            0 < k < occurrences_from(line, pat, i).len() ==> occurrences_from(line, pat, i)[k
                - 1].1 <= #[trigger] occurrences_from(line, pat, i)[k].0,
    decreases line.len() - i,
{
    if i < 0 || i + pat.len() > line.len() {
    } else if occurs_at(line, pat, i) {
        lemma_occurrences_from_sound(line, pat, i + pat.len());
        let rest = occurrences_from(line, pat, i + pat.len());
        assert(occurrences_from(line, pat, i) == seq![(i, i + pat.len())] + rest);
        assert forall|k: int| 0 < k < occurrences_from(line, pat, i).len() implies
            occurrences_from(line, pat, i)[k - 1].1 <= #[trigger] occurrences_from(
            line,
            pat,
            i,
        )[k].0 by {
            if k > 1 {
                assert(occurrences_from(line, pat, i)[k - 1] == rest[k - 2]);
                assert(occurrences_from(line, pat, i)[k] == rest[k - 1]);
            } else {
                assert(occurrences_from(line, pat, i)[k] == rest[0]);
            }
        }
        assert forall|k: int| 0 <= k < occurrences_from(line, pat, i).len() implies {
            let s = #[trigger] occurrences_from(line, pat, i)[k];
            &&& s.0 >= i
            &&& s.1 == s.0 + pat.len()
            &&& occurs_at(line, pat, s.0)
        } by {
            if k > 0 {
                assert(occurrences_from(line, pat, i)[k] == rest[k - 1]);
            }
        }
    } else {
        lemma_occurrences_from_sound(line, pat, i + 1);
        assert(occurrences_from(line, pat, i) == occurrences_from(line, pat, i + 1));
    }
}

/// Every span of literal search is an occurrence of the pattern in its line
/// (`line[start..end] == pat`), and the spans of a line are non-overlapping
/// with strictly increasing starts.
pub proof fn lemma_literal_spans_sound(line: Seq<u8>, pat: Seq<u8>)
    requires
        pat.len() > 0,
    ensures
        forall|k: int|
            0 <= k < literal_spans(line, pat).len() ==> {
                let s = #[trigger] literal_spans(line, pat)[k];
                &&& 0 <= s.0 < s.1 <= line.len()
                &&& line.subrange(s.0, s.1) == pat
            },
        forall|k: int|
            0 < k < literal_spans(line, pat).len() ==> {
                &&& literal_spans(line, pat)[k - 1].1 <= #[trigger] literal_spans(line, pat)[k].0
                &&& literal_spans(line, pat)[k - 1].0 < literal_spans(line, pat)[k].0
            },
{
    lemma_occurrences_from_sound(line, pat, 0);
    assert forall|k: int| 0 < k < literal_spans(line, pat).len() implies {
        &&& literal_spans(line, pat)[k - 1].1 <= #[trigger] literal_spans(line, pat)[k].0
        &&& literal_spans(line, pat)[k - 1].0 < literal_spans(line, pat)[k].0
    } by {
        let _ = literal_spans(line, pat)[k - 1];
    }
}

/// An occurrence of valid UTF-8 `pat` in valid UTF-8 `line` starts and ends
/// on character boundaries of `line`.
proof fn lemma_occurrence_on_boundaries(line: Seq<u8>, pat: Seq<u8>, i: int)
    requires
        valid_utf8(line),
        valid_utf8(pat),
        pat.len() > 0,
        occurs_at(line, pat, i),
    ensures
        is_char_boundary(line, i),
        is_char_boundary(line, i + pat.len()),
{
    let e = i + pat.len();
    assert(line[i] == line.subrange(i, e)[0]);
    is_char_boundary_iff_not_is_continuation_byte(line, i);
    is_char_boundary_start_end_of_seq(line);
    if e < line.len() {
        valid_utf8_split(line, i);
        let y = line.subrange(i, line.len() as int);
        assert(y.subrange(0, pat.len() as int) =~= pat);
        if !valid_utf8(y.subrange(pat.len() as int, y.len() as int)) {
            partial_valid_partial_invalid_utf8(y, pat.len() as int);
        }
        let c = y.subrange(pat.len() as int, y.len() as int);
        assert(c[0] == line[e]);
        is_char_boundary_iff_not_is_continuation_byte(line, e);
    }
}

/// The spans of literal search fit their line, when line and pattern are valid UTF-8.
proof fn lemma_literal_spans_fit(line: Seq<u8>, pat: Seq<u8>)
    requires
        valid_utf8(line),
        valid_utf8(pat),
        pat.len() > 0,
    ensures
        spans_valid(line, literal_spans(line, pat)),
{
    lemma_literal_spans_sound(line, pat);
    let sp = literal_spans(line, pat);
    assert forall|k: int| 0 <= k < sp.len() implies #[trigger] span_fits(line, sp, k) by {
        let s = sp[k];
        assert(line.subrange(s.0, s.1) == pat);
        assert(occurs_at(line, pat, s.0));
        lemma_occurrence_on_boundaries(line, pat, s.0);
        if k > 0 {
            let _ = sp[k - 1];
        }
    }
}

/// Each record of literal search has a 1-based line number and holds the
/// literal spans of its line, at least one.
proof fn lemma_literal_results_spans(lines: Seq<Seq<u8>>, pat: Seq<u8>)
    ensures
        forall|k: int|
            0 <= k < literal_results(lines, pat).len() ==> {
                let m = #[trigger] literal_results(lines, pat)[k];
                &&& m.spans == literal_spans(m.line, pat)
                &&& m.spans.len() > 0
                &&& m.line_number >= 1
            },
    decreases lines.len(),
{
    if lines.len() > 0 {
        let prev = literal_results(lines.drop_last(), pat);
        lemma_literal_results_spans(lines.drop_last(), pat);
        assert forall|k: int| 0 <= k < literal_results(lines, pat).len() implies {
            let m = #[trigger] literal_results(lines, pat)[k];
            &&& m.spans == literal_spans(m.line, pat)
            &&& m.spans.len() > 0
            &&& m.line_number >= 1
        } by {
            if k < prev.len() {
                assert(literal_results(lines, pat)[k] == prev[k]);
            }
        }
    }
}

/// Every span that literal search reports holds the pattern
/// (`line[start..end] == pat`), and the spans of each line are non-overlapping
/// with strictly increasing starts.
pub proof fn lemma_literal_search_spans(text: Seq<u8>, pat: Seq<u8>)
    requires
        pat.len() > 0,
    ensures
        forall|k: int, j: int|
            0 <= k < literal_results(lines_of(text), pat).len() && 0 <= j < literal_results(
                lines_of(text),
                pat,
            )[k].spans.len() ==> {
                let m = literal_results(lines_of(text), pat)[k];
                let s = #[trigger] literal_results(lines_of(text), pat)[k].spans[j];
                &&& 0 <= s.0 < s.1 <= m.line.len()
                &&& m.line.subrange(s.0, s.1) == pat
                &&& (j > 0 ==> m.spans[j - 1].1 <= s.0 && m.spans[j - 1].0 < s.0)
            },
{
    let res = literal_results(lines_of(text), pat);
    lemma_literal_results_spans(lines_of(text), pat);
    assert forall|k: int, j: int| 0 <= k < res.len() && 0 <= j < res[k].spans.len() implies {
        let m = res[k];
        let s = #[trigger] res[k].spans[j];
        &&& 0 <= s.0 < s.1 <= m.line.len()
        &&& m.line.subrange(s.0, s.1) == pat
        &&& (j > 0 ==> m.spans[j - 1].1 <= s.0 && m.spans[j - 1].0 < s.0)
    } by {
        lemma_literal_spans_sound(res[k].line, pat);
        let _ = literal_spans(res[k].line, pat)[j];
        if j > 0 {
            let _ = literal_spans(res[k].line, pat)[j - 1];
        }
    }
}

} // verus!
