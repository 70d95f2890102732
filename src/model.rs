//! The record of one matching line.
use vstd::prelude::*;
use vstd::utf8::{encode_utf8, is_char_boundary};

verus! {

/// One line of input that holds at least one match.
#[derive(Clone, Debug, PartialEq, Eq)]
pub struct MatchLine {
    /// The 1-based position of the line in the input.
    pub line_number: usize,
    /// The text of the line, without its terminator.
    pub line: String,
    /// Half-open byte ranges into `line`, one per match, left to right.
    pub spans: Vec<core::ops::Range<usize>>,
}

/// Mathematical model of a `MatchLine`: the line's bytes and its spans as pairs.
pub struct MatchLineView {
    pub line_number: int,
    pub line: Seq<u8>,
    pub spans: Seq<(int, int)>,
}

/// A sequence of ranges as pairs of integers.
pub open spec fn span_pairs(spans: Seq<core::ops::Range<usize>>) -> Seq<(int, int)> {
    spans.map_values(|r: core::ops::Range<usize>| (r.start as int, r.end as int))
}

impl View for MatchLine {
    type V = MatchLineView;

    open spec fn view(&self) -> MatchLineView {
        MatchLineView {
            line_number: self.line_number as int,
            line: encode_utf8(self.line@),
            spans: span_pairs(self.spans@),
        }
    }
}

} // verus!

verus! {

/// Span `k` of `spans` lies within `line`, starts and ends on character
/// boundaries, does not start before span `k - 1` ends, and starts after
/// span `k - 1` starts.
pub open spec fn span_fits(line: Seq<u8>, spans: Seq<(int, int)>, k: int) -> bool {
    let s = spans[k];
    &&& 0 <= s.0 <= s.1 <= line.len()
    &&& is_char_boundary(line, s.0)
    &&& is_char_boundary(line, s.1)
    &&& (k > 0 ==> spans[k - 1].1 <= s.0 && spans[k - 1].0 < s.0)
}

/// Every span fits `line`: in bounds, on character boundaries, non-overlapping,
/// with strictly increasing starts.
pub open spec fn spans_valid(line: Seq<u8>, spans: Seq<(int, int)>) -> bool {
    forall|k: int| 0 <= k < spans.len() ==> #[trigger] span_fits(line, spans, k)
}

impl MatchLineView {
    /// The invariants of a record: a 1-based line number, at least one span,
    /// and spans that fit the line.
    pub open spec fn well_formed(self) -> bool {
        &&& self.line_number >= 1
        &&& self.spans.len() > 0
        &&& spans_valid(self.line, self.spans)
    }
}

} // verus!
