//! The line index of a document: where each line begins and ends.
//!
//! A line ends at a line feed, which is not part of it; a carriage return
//! right before that line feed is not part of it either. The last line needs
//! no line feed, and a text that ends in a line feed has no empty last line.

use vstd::prelude::*;
use vstd::string::*;
use vstd::utf8::*;
use crate::text::{lemma_boundary_around_ascii, lemma_boundary_by_byte, Span, CARRIAGE_RETURN, NEWLINE};

verus! {

/// The offset of the first line feed at or after `from`, or the length of
/// the text where there is none.
pub open spec fn line_break(text: Seq<u8>, from: int) -> int
    decreases text.len() - from,
{
    if from < 0 || from >= text.len() {
        text.len() as int
    } else if text[from] == NEWLINE {
        from
    } else {
        line_break(text, from + 1)
    }
}

/// Where the line that runs up to the break at `brk` ends: before the
/// carriage return, where one precedes the line feed.
pub open spec fn line_end(text: Seq<u8>, start: int, brk: int) -> int {
    if brk < text.len() && start < brk && text[brk - 1] == CARRIAGE_RETURN {
        brk - 1
    } else {
        brk
    }
}

/// The lines of `text` that begin at or after `from`, a line's beginning.
pub open spec fn lines_from(text: Seq<u8>, from: int) -> Seq<Span>
    decreases text.len() + 1 - from,
    via lines_from_decreases
{
    if from < 0 || from >= text.len() {
        Seq::empty()
    } else {
        let brk = line_break(text, from);
        seq![Span { start: from as usize, end: line_end(text, from, brk) as usize }] + lines_from(
            text,
            brk + 1,
        )
    }
}

#[via_fn]
proof fn lines_from_decreases(text: Seq<u8>, from: int) {
    if 0 <= from < text.len() {
        lemma_line_break(text, from);
    }
}

/// The lines of `text`, in order.
pub open spec fn lines_of(text: Seq<u8>) -> Seq<Span> {
    lines_from(text, 0)
}

/// The break of a line lies between the line's beginning and the end of the
/// text, and no line feed stands before it.
pub proof fn lemma_line_break(text: Seq<u8>, from: int)
    requires
        0 <= from <= text.len(),
    ensures
        from <= line_break(text, from) <= text.len(),
        line_break(text, from) < text.len() ==> text[line_break(text, from)] == NEWLINE,
        forall|i: int| from <= i < line_break(text, from) ==> text[i] != NEWLINE,
    decreases text.len() - from,
{
    if from < text.len() && text[from] != NEWLINE {
        lemma_line_break(text, from + 1);
    }
}

/// Every line lies inside the text, begins where it should and holds no
/// line feed.
pub proof fn lemma_lines_within(text: Seq<u8>, from: int)
    requires
        0 <= from <= text.len(),
        text.len() <= usize::MAX,
    ensures
        forall|k: int|
            0 <= k < lines_from(text, from).len() ==> {
                let line = #[trigger] lines_from(text, from)[k];
                &&& from <= line.start <= line.end <= text.len()
                &&& line.start < text.len()
                &&& forall|i: int| line.start <= i < line.end ==> text[i] != NEWLINE
            },
    decreases text.len() - from,
{
    if from < text.len() {
        let brk = line_break(text, from);
        lemma_line_break(text, from);
        if brk + 1 <= text.len() {
            lemma_lines_within(text, brk + 1);
        }
        let rest = lines_from(text, brk + 1);
        assert forall|k: int| 0 <= k < lines_from(text, from).len() implies {
            let line = #[trigger] lines_from(text, from)[k];
            &&& from <= line.start <= line.end <= text.len()
            &&& line.start < text.len()
            &&& forall|i: int| line.start <= i < line.end ==> text[i] != NEWLINE
        } by {
            if k > 0 {
                assert(lines_from(text, from)[k] == rest[k - 1]);
            }
        }
    }
}

/// The lines of valid UTF-8 begin and end between characters.
pub proof fn lemma_lines_on_boundaries(text: Seq<u8>, from: int)
    requires
        valid_utf8(text),
        0 <= from <= text.len(),
        text.len() <= usize::MAX,
        is_char_boundary(text, from),
    ensures
        forall|k: int|
            0 <= k < lines_from(text, from).len() ==> (#[trigger] lines_from(
                text,
                from,
            )[k]).on_boundaries(text),
    decreases text.len() - from,
{
    if from < text.len() {
        let brk = line_break(text, from);
        let end = line_end(text, from, brk);
        lemma_line_break(text, from);
        if brk < text.len() {
            lemma_boundary_around_ascii(text, brk);
            if end < brk {
                lemma_boundary_around_ascii(text, end);
            }
            lemma_lines_on_boundaries(text, brk + 1);
        } else {
            lemma_boundary_by_byte(text, brk);
        }
        let rest = lines_from(text, brk + 1);
        assert forall|k: int| 0 <= k < lines_from(text, from).len() implies (
        #[trigger] lines_from(text, from)[k]).on_boundaries(text) by {
            if k > 0 {
                assert(lines_from(text, from)[k] == rest[k - 1]);
            }
        }
    }
}

/// Builds the line index of `text`.
pub fn lines(text: &str) -> (res: Vec<Span>)
    ensures
        res@ == lines_of(text.spec_bytes()),
        forall|k: int| 0 <= k < res.len() ==> (#[trigger] res[k]).on_boundaries(text.spec_bytes()),
{
    let bytes = text.as_bytes();
    let len = bytes.len();
    let ghost all = text.spec_bytes();
    let mut res: Vec<Span> = Vec::new();
    let mut pos: usize = 0;
    while pos < len
        invariant
            bytes@ == all,
            len == all.len(),
            pos <= len,
            res@ + lines_from(all, pos as int) == lines_of(all),
        decreases len - pos,
    {
        let mut brk: usize = pos;
        while brk < len && bytes[brk] != NEWLINE
            invariant
                bytes@ == all,
                len == all.len(),
                pos <= brk <= len,
                line_break(all, brk as int) == line_break(all, pos as int),
            decreases len - brk,
        {
            brk = brk + 1;
        }
        let end: usize = if brk < len && pos < brk && bytes[brk - 1] == CARRIAGE_RETURN {
            brk - 1
        } else {
            brk
        };
        let ghost before = res@;
        res.push(Span { start: pos, end });
        proof {
            assert(line_break(all, pos as int) == brk);
            assert(before + lines_from(all, pos as int) =~= res@ + lines_from(all, brk + 1));
        }
        if brk == len {
            pos = len;
        } else {
            pos = brk + 1;
        }
    }
    proof {
        assert(res@ + lines_from(all, pos as int) =~= res@);
        encode_utf8_valid_utf8(text@);
        lemma_lines_on_boundaries(all, 0);
    }
    res
}

} // verus!
