//! Highlighting of matched spans, as a sequence of styled segments rendered
//! with terminal escape codes.
use owo_colors::OwoColorize;
use vstd::prelude::*;
use vstd::string::*;
use vstd::utf8::*;

use crate::error::SearchError;
use crate::lines::lemma_boundary_in_slice;
use crate::model::{span_fits, span_pairs, spans_valid};

verus! {

/// A piece of a highlighted line: some of the line's bytes, emphasized or not.
pub struct Segment {
    pub emphasized: bool,
    pub text: Seq<u8>,
}

/// The segments of `line` from byte `cursor` on, cut by `spans`: before each
/// span the text it leaves uncovered, then the span's own text, emphasized;
/// after the last span the rest of the line.
pub open spec fn segments_from(line: Seq<u8>, spans: Seq<(int, int)>, cursor: int) -> Seq<Segment>
    decreases spans.len(),
{
    if spans.len() == 0 {
        if cursor < line.len() {
            seq![Segment { emphasized: false, text: line.subrange(cursor, line.len() as int) }]
        } else {
            seq![]
        }
    } else {
        let s = spans[0];
        let gap = if cursor < s.0 {
            seq![Segment { emphasized: false, text: line.subrange(cursor, s.0) }]
        } else {
            seq![]
        };
        gap + seq![Segment { emphasized: true, text: line.subrange(s.0, s.1) }] + segments_from(
            line,
            spans.drop_first(),
            s.1,
        )
    }
}

/// The segments of `line` cut by `spans`.
pub open spec fn segments(line: Seq<u8>, spans: Seq<(int, int)>) -> Seq<Segment> {
    segments_from(line, spans, 0)
}

/// The escape codes that open an emphasized run: bold, then yellow foreground.
pub open spec fn emphasis_open() -> Seq<char> {
    seq!['\x1b', '[', '1', 'm', '\x1b', '[', '3', '3', 'm']
}

/// The escape codes that close an emphasized run: default foreground, then reset.
pub open spec fn emphasis_close() -> Seq<char> {
    seq!['\x1b', '[', '3', '9', 'm', '\x1b', '[', '0', 'm']
}

/// `t` in emphasis.
pub open spec fn emphasized(t: Seq<char>) -> Seq<char> {
    emphasis_open() + t + emphasis_close()
}

/// The characters that one segment renders to.
pub open spec fn render_segment(g: Segment) -> Seq<char> {
    if g.emphasized {
        emphasized(decode_utf8(g.text))
    } else {
        decode_utf8(g.text)
    }
}

/// The characters that a sequence of segments renders to.
pub open spec fn render(segs: Seq<Segment>) -> Seq<char>
    decreases segs.len(),
{
    if segs.len() == 0 {
        seq![]
    } else {
        render_segment(segs[0]) + render(segs.drop_first())
    }
}

/// The bytes of a sequence of segments with their styling taken away.
pub open spec fn plain_text(segs: Seq<Segment>) -> Seq<u8>
    decreases segs.len(),
{
    if segs.len() == 0 {
        seq![]
    } else {
        segs[0].text + plain_text(segs.drop_first())
    }
}

proof fn lemma_render_concat(a: Seq<Segment>, b: Seq<Segment>)
    ensures
        render(a + b) == render(a) + render(b),
    decreases a.len(),
{
    if a.len() == 0 {
        assert(a + b =~= b);
    } else {
        lemma_render_concat(a.drop_first(), b);
        assert((a + b).drop_first() =~= a.drop_first() + b);
        assert(render(a + b) =~= render(a) + render(b));
    }
}

proof fn lemma_plain_text_concat(a: Seq<Segment>, b: Seq<Segment>)
    ensures
        plain_text(a + b) == plain_text(a) + plain_text(b),
    decreases a.len(),
{
    if a.len() == 0 {
        assert(a + b =~= b);
    } else {
        lemma_plain_text_concat(a.drop_first(), b);
        assert((a + b).drop_first() =~= a.drop_first() + b);
        assert(plain_text(a + b) =~= plain_text(a) + plain_text(b));
    }
}

proof fn lemma_single_segment(g: Segment)
    ensures
        render(seq![g]) == render_segment(g),
        plain_text(seq![g]) == g.text,
{
    reveal_with_fuel(render, 2);
    reveal_with_fuel(plain_text, 2);
    assert(seq![g].drop_first() =~= Seq::<Segment>::empty());
    assert(render(seq![g]) =~= render_segment(g));
    assert(plain_text(seq![g]) =~= g.text);
}

proof fn lemma_empty_bytes_no_text(b: Seq<u8>)
    requires
        b.len() == 0,
    ensures
        decode_utf8(b) == Seq::<char>::empty(),
{
}

proof fn lemma_render_tail(line: Seq<u8>, cursor: int)
    requires
        0 <= cursor <= line.len(),
    ensures
        render(segments_from(line, Seq::<(int, int)>::empty(), cursor)) == decode_utf8(
            line.subrange(cursor, line.len() as int),
        ),
{
    if cursor < line.len() {
        lemma_single_segment(
            Segment { emphasized: false, text: line.subrange(cursor, line.len() as int) },
        );
    } else {
        lemma_empty_bytes_no_text(line.subrange(cursor, line.len() as int));
    }
}

proof fn lemma_render_step(line: Seq<u8>, todo: Seq<(int, int)>, cursor: int)
    requires
        todo.len() > 0,
        0 <= cursor <= todo[0].0 <= todo[0].1 <= line.len(),
    ensures
        render(segments_from(line, todo, cursor)) == decode_utf8(line.subrange(cursor, todo[0].0))
            + emphasized(decode_utf8(line.subrange(todo[0].0, todo[0].1))) + render(
            segments_from(line, todo.drop_first(), todo[0].1),
        ),
{
    let s = todo[0];
    let gap = if cursor < s.0 {
        seq![Segment { emphasized: false, text: line.subrange(cursor, s.0) }]
    } else {
        seq![]
    };
    let g = Segment { emphasized: true, text: line.subrange(s.0, s.1) };
    let rest = segments_from(line, todo.drop_first(), s.1);
    lemma_render_concat(gap + seq![g], rest);
    lemma_render_concat(gap, seq![g]);
    lemma_single_segment(g);
    if cursor < s.0 {
        lemma_single_segment(Segment { emphasized: false, text: line.subrange(cursor, s.0) });
    } else {
        lemma_empty_bytes_no_text(line.subrange(cursor, s.0));
    }
}

proof fn lemma_text_of_bytes(s: &str)
    ensures
        decode_utf8(s.spec_bytes()) == s@,
        s.spec_bytes().len() == 0 <==> s@.len() == 0,
        valid_utf8(s.spec_bytes()),
{
    encode_utf8_decode_utf8(s@);
    encode_utf8_valid_utf8(s@);
}

/// Relies on owo_colors' `yellow` and `bold`, shown with `to_string`: the
/// `Display` of the result writes the bold code, the yellow foreground code,
/// the text, the default foreground code and the reset code.
#[verifier::external_body]
fn emphasize(text: &str) -> (r: String)
    ensures
        r@ == emphasized(text@),
{
    text.yellow().bold().to_string()
}

/// Renders `line` with each span emphasized and the text between spans as it
/// is. Fails with `InvalidSpan` unless every span lies within the line, starts
/// and ends on character boundaries, starts no earlier than the previous span
/// ends and later than the previous span starts. With no spans the line comes
/// back unchanged.
#[verifier::rlimit(40)]
pub fn highlight_line(line: &str, spans: &[core::ops::Range<usize>]) -> (r: Result<
    String,
    SearchError,
>)
    ensures
        r is Ok <==> spans_valid(line.spec_bytes(), span_pairs(spans@)),
        r is Err ==> r->Err_0 is InvalidSpan,
        r is Ok ==> r->Ok_0@ == render(segments(line.spec_bytes(), span_pairs(spans@))),
        spans@.len() == 0 ==> r is Ok && r->Ok_0@ == line@,
{
    let ghost lb = line.spec_bytes();
    let ghost sp = span_pairs(spans@);
    let n = line.as_bytes().len();
    proof {
        lemma_text_of_bytes(line);
    }
    let mut out = String::new();
    let mut rest: &str = line;
    let mut cursor: usize = 0;
    let mut prev_start: usize = 0;
    let mut i: usize = 0;
    assert(sp.subrange(0, sp.len() as int) =~= sp);
    while i < spans.len()
        invariant
            lb == line.spec_bytes(),
            valid_utf8(lb),
            n == lb.len(),
            sp == span_pairs(spans@),
            i <= spans@.len(),
            cursor <= n,
            rest.spec_bytes() == lb.subrange(cursor as int, n as int),
            forall|k: int| 0 <= k < i ==> #[trigger] span_fits(lb, sp, k),
            i > 0 ==> cursor == sp[i - 1].1 && prev_start == sp[i - 1].0,
            i == 0 ==> cursor == 0 && rest@ == line@ && out@.len() == 0,
            render(segments(lb, sp)) == out@ + render(
                segments_from(lb, sp.subrange(i as int, sp.len() as int), cursor as int),
            ),
        decreases spans@.len() - i,
    {
        let s = spans[i].start;
        let e = spans[i].end;
        if s > e || e > n || s < cursor || (i > 0 && s <= prev_start) || !line.is_char_boundary(s)
            || !line.is_char_boundary(e) {
            assert(!span_fits(lb, sp, i as int));
            return Err(SearchError::InvalidSpan);
        }
        assert(span_fits(lb, sp, i as int));
        proof {
            lemma_text_of_bytes(rest);
            lemma_boundary_in_slice(lb, cursor as int, n as int, s as int);
        }
        let (gap, after) = rest.split_at(s - cursor);
        proof {
            lemma_text_of_bytes(after);
            assert(after.spec_bytes() =~= lb.subrange(s as int, n as int));
            lemma_boundary_in_slice(lb, s as int, n as int, e as int);
        }
        let (hit, tail) = after.split_at(e - s);
        proof {
            lemma_text_of_bytes(gap);
            lemma_text_of_bytes(hit);
            assert(gap.spec_bytes() =~= lb.subrange(cursor as int, s as int));
            assert(hit.spec_bytes() =~= lb.subrange(s as int, e as int));
            assert(tail.spec_bytes() =~= lb.subrange(e as int, n as int));
            let todo = sp.subrange(i as int, sp.len() as int);
            assert(todo.drop_first() =~= sp.subrange(i + 1, sp.len() as int));
            lemma_render_step(lb, todo, cursor as int);
        }
        let ghost old_out = out@;
        out.append(gap);
        let styled = emphasize(hit);
        out.append(styled.as_str());
        assert(out@ =~= old_out + gap@ + emphasized(hit@));
        rest = tail;
        cursor = e;
        prev_start = s;
        i = i + 1;
    }
    proof {
        lemma_text_of_bytes(rest);
        assert(sp.subrange(i as int, sp.len() as int) =~= Seq::<(int, int)>::empty());
        lemma_render_tail(lb, cursor as int);
    }
    out.append(rest);
    assert(spans_valid(lb, sp));
    Ok(out)
}

/// A span that ends before it starts, or ends past the end of the line, makes
/// the spans invalid, so highlighting fails with `InvalidSpan`.
pub proof fn lemma_out_of_bounds_span_invalid(line: Seq<u8>, spans: Seq<(int, int)>, k: int)
    requires
        0 <= k < spans.len(),
        spans[k].0 > spans[k].1 || spans[k].1 > line.len(),
    ensures
        !spans_valid(line, spans),
{
    assert(!span_fits(line, spans, k));
}

proof fn lemma_segments_from_rebuild(line: Seq<u8>, spans: Seq<(int, int)>, cursor: int)
    requires
        spans_valid(line, spans),
        0 <= cursor <= line.len(),
        spans.len() > 0 ==> cursor <= spans[0].0,
    ensures
        plain_text(segments_from(line, spans, cursor)) == line.subrange(cursor, line.len() as int),
    decreases spans.len(),
{
    if spans.len() == 0 {
        if cursor < line.len() {
            lemma_single_segment(
                Segment { emphasized: false, text: line.subrange(cursor, line.len() as int) },
            );
        } else {
            assert(line.subrange(cursor, line.len() as int) =~= Seq::<u8>::empty());
        }
    } else {
        let s = spans[0];
        assert(span_fits(line, spans, 0));
        let rest = spans.drop_first();
        assert forall|k: int| 0 <= k < rest.len() implies #[trigger] span_fits(line, rest, k) by {
            assert(span_fits(line, spans, k + 1));
        }
        if rest.len() > 0 {
            assert(span_fits(line, spans, 1));
        }
        lemma_segments_from_rebuild(line, rest, s.1);
        let gap = if cursor < s.0 {
            seq![Segment { emphasized: false, text: line.subrange(cursor, s.0) }]
        } else {
            seq![]
        };
        let hit = seq![Segment { emphasized: true, text: line.subrange(s.0, s.1) }];
        lemma_plain_text_concat(gap + hit, segments_from(line, rest, s.1));
        lemma_plain_text_concat(gap, hit);
        lemma_single_segment(hit[0]);
        if cursor < s.0 {
            lemma_single_segment(gap[0]);
        }
        assert(plain_text(segments_from(line, spans, cursor)) =~= line.subrange(
            cursor,
            line.len() as int,
        ));
    }
}

/// Highlighting loses no text and adds none: the texts of the segments of a
/// highlighted line, emphasized or not, put together in order, are the line.
pub proof fn lemma_segments_rebuild_line(line: Seq<u8>, spans: Seq<(int, int)>)
    requires
        spans_valid(line, spans),
    ensures
        plain_text(segments(line, spans)) == line,
{
    if spans.len() > 0 {
        assert(span_fits(line, spans, 0));
    }
    lemma_segments_from_rebuild(line, spans, 0);
    assert(line.subrange(0, line.len() as int) =~= line);
}

} // verus!
