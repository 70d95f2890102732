//! The search report: each matching line as `<line number>:<highlighted line>`
//! followed by a line feed.
use vstd::prelude::*;
use vstd::string::*;

use crate::engine::regex_accepts;
use crate::error::SearchError;
use crate::lines::lines_of;
use crate::model::{spans_valid, MatchLine, MatchLineView};
use crate::render::{highlight_line, render, segments};
use crate::search::{
    engine_pattern, literal_results, regex_results, search_literal, search_regex, views,
};

verus! {

/// The decimal digit `d`, for `d < 10`.
pub open spec fn digit(d: nat) -> char {
    seq!['0', '1', '2', '3', '4', '5', '6', '7', '8', '9'][d as int]
}

/// The decimal numeral of `n`, without leading zeros.
pub open spec fn decimal(n: nat) -> Seq<char>
    decreases n,
{
    if n < 10 {
        seq![digit(n)]
    } else {
        decimal(n / 10).push(digit(n % 10))
    }
}

/// The report line of one record.
pub open spec fn report_line(m: MatchLineView) -> Seq<char> {
    decimal(m.line_number as nat) + seq![':'] + render(segments(m.line, m.spans)) + seq!['\n']
}

/// The report of a sequence of records: their report lines, in order.
pub open spec fn report(res: Seq<MatchLineView>) -> Seq<char>
    decreases res.len(),
{
    if res.len() == 0 {
        seq![]
    } else {
        report(res.drop_last()) + report_line(res.last())
    }
}

/// Relies on the `Display` of `usize`, through `to_string`: the decimal numeral.
#[verifier::external_body]
fn decimal_text(n: usize) -> (r: String)
    ensures
        r@ == decimal(n as nat),
{
    n.to_string()
}

/// Renders the report of `matches`. Fails with `InvalidSpan` unless the spans
/// of every record fit its line.
pub fn render_report(matches: &Vec<MatchLine>) -> (r: Result<String, SearchError>)
    ensures
        r is Ok <==> forall|k: int|
            0 <= k < matches@.len() ==> spans_valid(
                #[trigger] matches@[k]@.line,
                matches@[k]@.spans,
            ),
        r is Err ==> r->Err_0 is InvalidSpan,
        r is Ok ==> r->Ok_0@ == report(views(matches@)),
{
    let mut out = String::new();
    let mut i: usize = 0;
    while i < matches.len()
        invariant
            i <= matches@.len(),
            forall|k: int|
                0 <= k < i ==> spans_valid(#[trigger] matches@[k]@.line, matches@[k]@.spans),
            out@ == report(views(matches@).subrange(0, i as int)),
        decreases matches@.len() - i,
    {
        let m = &matches[i];
        let text = match highlight_line(m.line.as_str(), m.spans.as_slice()) {
            Ok(text) => text,
            Err(e) => {
                assert(!spans_valid(matches@[i as int]@.line, matches@[i as int]@.spans));
                return Err(e);
            },
        };
        let ghost old_out = out@;
        let number = decimal_text(m.line_number);
        out.append(number.as_str());
        out.append(":");
        out.append(text.as_str());
        out.append("\n");
        proof {
            reveal_strlit(":");
            reveal_strlit("\n");
            let done = views(matches@).subrange(0, i + 1);
            assert(done.drop_last() =~= views(matches@).subrange(0, i as int));
            assert(out@ =~= old_out + report_line(matches@[i as int]@));
        }
        i = i + 1;
    }
    assert(views(matches@).subrange(0, i as int) =~= views(matches@));
    Ok(out)
}

/// Searches `input` for `pattern`, as a regular expression when `use_regex`
/// is set (then `ignore_case` applies) and literally otherwise, and renders
/// the report of the matching lines. Fails only where the search fails.
pub fn search_and_render(input: &str, pattern: &str, use_regex: bool, ignore_case: bool) -> (r:
    Result<String, SearchError>)
    ensures
        pattern@.len() == 0 ==> r is Err && r->Err_0 is EmptyPattern,
        !use_regex ==> (r is Ok <==> pattern@.len() > 0),
        !use_regex && r is Ok ==> r->Ok_0@ == report(
            literal_results(lines_of(input.spec_bytes()), pattern.spec_bytes()),
        ),
        use_regex ==> (r is Ok <==> pattern@.len() > 0 && regex_accepts(
            engine_pattern(pattern@, ignore_case),
        )),
        use_regex && pattern@.len() > 0 && !regex_accepts(engine_pattern(pattern@, ignore_case))
            ==> r is Err && r->Err_0 is Regex,
        use_regex && r is Ok ==> r->Ok_0@ == report(
            regex_results(lines_of(input.spec_bytes()), engine_pattern(pattern@, ignore_case)),
        ),
{
    let found = if use_regex {
        search_regex(input, pattern, ignore_case)
    } else {
        search_literal(input, pattern)
    };
    let matches = match found {
        Ok(matches) => matches,
        Err(e) => {
            return Err(e);
        },
    };
    proof {
        assert forall|k: int| 0 <= k < matches@.len() implies spans_valid(
            #[trigger] matches@[k]@.line,
            matches@[k]@.spans,
        ) by {
            assert(views(matches@)[k] == matches@[k]@);
        }
    }
    render_report(&matches)
}

} // verus!
