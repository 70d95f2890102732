//! Splitting a text into lines.
use vstd::prelude::*;
use vstd::string::*;
use vstd::utf8::*;

verus! {

/// The line feed byte.
pub const LF: u8 = 10;

/// The carriage return byte.
pub const CR: u8 = 13;

/// The number of bytes of `b` before its first line feed (all of them when it has none).
pub open spec fn line_break(b: Seq<u8>) -> nat
    decreases b.len(),
{
    if b.len() == 0 {
        0
    } else if b[0] == LF {
        0
    } else {
        1 + line_break(b.drop_first())
    }
}

/// `l` without one carriage return at its end.
pub open spec fn strip_cr(l: Seq<u8>) -> Seq<u8> {
    if l.len() > 0 && l.last() == CR {
        l.drop_last()
    } else {
        l
    }
}

/// The lines of a text: the pieces between line feeds, each without a
/// carriage return that stood right before its line feed. A line feed at the
/// very end closes the last line and opens no new one; a last piece without a
/// line feed is still a line.
pub open spec fn lines_of(b: Seq<u8>) -> Seq<Seq<u8>>
    decreases b.len(),
{
    if b.len() == 0 {
        seq![]
    } else {
        let k = line_break(b) as int;
        if k < b.len() {
            seq![strip_cr(b.subrange(0, k))] + lines_of(b.subrange(k + 1, b.len() as int))
        } else {
            seq![b]
        }
    }
}

proof fn lemma_line_break(b: Seq<u8>, i: int)
    requires
        0 <= i <= b.len(),
        forall|j: int| 0 <= j < i ==> b[j] != LF,
        i == b.len() || b[i] == LF,
    ensures
        line_break(b) == i,
    decreases i,
{
    if i > 0 {
        let t = b.drop_first();
        assert forall|j: int| 0 <= j < i - 1 implies t[j] != LF by {
            assert(t[j] == b[j + 1]);
        }
        lemma_line_break(t, i - 1);
    }
}

/// A byte below 0x80 at the front of valid UTF-8 is a whole character.
pub proof fn lemma_boundary_after_ascii_head(b: Seq<u8>)
    requires
        valid_utf8(b),
        b.len() > 0,
        b[0] < 0x80,
    ensures
        is_char_boundary(b, 1),
{
    reveal_with_fuel(is_char_boundary, 2);
}

/// A character boundary of a text stays one in a slice of it that is itself valid UTF-8.
pub proof fn lemma_boundary_in_slice(a: Seq<u8>, lo: int, hi: int, i: int)
    requires
        valid_utf8(a),
        valid_utf8(a.subrange(lo, hi)),
        0 <= lo <= i <= hi <= a.len(),
        is_char_boundary(a, i),
    ensures
        is_char_boundary(a.subrange(lo, hi), i - lo),
{
    let b = a.subrange(lo, hi);
    is_char_boundary_start_end_of_seq(b);
    if i - lo != 0 && i != hi {
        is_char_boundary_iff_not_is_continuation_byte(a, i);
        is_char_boundary_iff_not_is_continuation_byte(b, i - lo);
    }
}

/// Splits off the first line of a non-empty text: returns that line without
/// its terminator, and the text after the terminator.
pub fn split_first_line(text: &str) -> (r: (&str, &str))
    requires
        text.spec_bytes().len() > 0,
    ensures
        lines_of(text.spec_bytes()) == seq![r.0.spec_bytes()] + lines_of(r.1.spec_bytes()),
        r.1.spec_bytes().len() < text.spec_bytes().len(),
{
    let bytes = text.as_bytes();
    let n = bytes.len();
    let ghost b = bytes@;
    let mut i: usize = 0;
    while i < n && bytes[i] != LF
        invariant
            i <= n,
            n == b.len(),
            b == bytes@,
            forall|j: int| 0 <= j < i ==> b[j] != LF,
        decreases n - i,
    {
        i = i + 1;
    }
    proof {
        lemma_line_break(b, i as int);
        encode_utf8_valid_utf8(text@);
    }
    if i == n {
        proof {
            is_char_boundary_start_end_of_seq(b);
        }
        let (line, tail) = text.split_at(n);
        assert(line.spec_bytes() =~= b);
        assert(tail.spec_bytes() =~= Seq::<u8>::empty());
        return (line, tail);
    }
    proof {
        is_char_boundary_iff_not_is_continuation_byte(b, i as int);
    }
    let (head, after) = text.split_at(i);
    proof {
        encode_utf8_valid_utf8(after@);
        lemma_boundary_after_ascii_head(after.spec_bytes());
    }
    let (_terminator, tail) = after.split_at(1);
    assert(tail.spec_bytes() =~= b.subrange(i + 1, n as int));
    if i > 0 && bytes[i - 1] == CR {
        proof {
            encode_utf8_valid_utf8(head@);
            is_char_boundary_iff_not_is_continuation_byte(head.spec_bytes(), i - 1);
        }
        let (line, _cr) = head.split_at(i - 1);
        assert(line.spec_bytes() =~= strip_cr(b.subrange(0, i as int)));
        return (line, tail);
    }
    assert(head.spec_bytes() =~= strip_cr(b.subrange(0, i as int)));
    (head, tail)
}

} // verus!
