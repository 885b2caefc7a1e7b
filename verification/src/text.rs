//! Byte offsets in a text: spans, slices that stay on character boundaries,
//! and the index of a text's lines.

use vstd::prelude::*;
use vstd::string::*;
use vstd::utf8::*;

verus! {

/// A half-open range of byte offsets.
#[derive(Clone, Copy, Debug, PartialEq, Eq)]
pub struct Span {
    pub start: usize,
    pub end: usize,
}

pub const NEWLINE: u8 = 0x0a;

pub const CARRIAGE_RETURN: u8 = 0x0d;

impl Span {
    /// The span lies inside a text of `len` bytes.
    pub open spec fn within(self, len: nat) -> bool {
        self.start <= self.end <= len
    }

    /// The span lies inside `text` and both of its ends fall between two
    /// characters of it.
    pub open spec fn on_boundaries(self, text: Seq<u8>) -> bool {
        &&& self.within(text.len())
        &&& is_char_boundary(text, self.start as int)
        &&& is_char_boundary(text, self.end as int)
    }

    /// The bytes of `text` that the span covers.
    pub open spec fn of(self, text: Seq<u8>) -> Seq<u8> {
        text.subrange(self.start as int, self.end as int)
    }

    /// The span moved `by` bytes to the right.
    pub open spec fn shifted(self, by: int) -> Span {
        Span { start: (self.start + by) as usize, end: (self.end + by) as usize }
    }
}

/// In valid UTF-8 an offset below the length is a character boundary exactly
/// when the byte there is no continuation byte.
pub proof fn lemma_boundary_by_byte(text: Seq<u8>, i: int)
    requires
        valid_utf8(text),
        0 <= i <= text.len(),
    ensures
        is_char_boundary(text, i) <==> (i == text.len() || !is_continuation_byte(text[i])),
{
    if i == text.len() {
        is_char_boundary_start_end_of_seq(text);
    } else {
        is_char_boundary_iff_not_is_continuation_byte(text, i);
    }
}

/// An ASCII byte of valid UTF-8 stands between two character boundaries.
pub proof fn lemma_boundary_around_ascii(text: Seq<u8>, i: int)
    requires
        valid_utf8(text),
        0 <= i < text.len(),
        text[i] < 0x80,
    ensures
        is_char_boundary(text, i),
        is_char_boundary(text, i + 1),
{
    lemma_boundary_by_byte(text, i);
    valid_utf8_split(text, i);
    let rest = text.subrange(i, text.len() as int);
    assert(rest[0] == text[i]);
    assert(length_of_first_scalar(rest) == 1);
    if i + 1 < text.len() {
        assert(valid_utf8(pop_first_scalar(rest)));
        assert(is_char_boundary(pop_first_scalar(rest), 0));
        assert(is_char_boundary(rest, 1));
        lemma_boundary_by_byte(rest, 1);
        assert(rest[1] == text[i + 1]);
        lemma_boundary_by_byte(text, i + 1);
    } else {
        lemma_boundary_by_byte(text, i + 1);
    }
}

/// A span on the boundaries of valid UTF-8 covers valid UTF-8.
pub proof fn lemma_span_valid(text: Seq<u8>, span: Span)
    requires
        valid_utf8(text),
        span.on_boundaries(text),
    ensures
        valid_utf8(span.of(text)),
{
    valid_utf8_split(text, span.end as int);
    let head = text.subrange(0, span.end as int);
    lemma_boundary_by_byte(text, span.start as int);
    lemma_boundary_by_byte(head, span.start as int);
    valid_utf8_split(head, span.start as int);
    assert(head.subrange(span.start as int, head.len() as int) =~= span.of(text));
}

/// A boundary of a span's bytes is a boundary of the text that holds the span.
pub proof fn lemma_boundary_inside(text: Seq<u8>, outer: Span, k: int)
    requires
        valid_utf8(text),
        outer.on_boundaries(text),
        0 <= k <= outer.end - outer.start,
        is_char_boundary(outer.of(text), k),
    ensures
        is_char_boundary(text, outer.start + k),
{
    lemma_span_valid(text, outer);
    let part = outer.of(text);
    if k < part.len() {
        lemma_boundary_by_byte(part, k);
        assert(part[k] == text[outer.start + k]);
        lemma_boundary_by_byte(text, outer.start + k);
    }
}

/// The part of `text` that `span` covers.
pub fn slice<'a>(text: &'a str, span: Span) -> (res: &'a str)
    requires
        span.on_boundaries(text.spec_bytes()),
    ensures
        res.spec_bytes() == span.of(text.spec_bytes()),
{
    proof {
        encode_utf8_valid_utf8(text@);
    }
    let (head, _) = text.split_at(span.end);
    proof {
        let bytes = text.spec_bytes();
        encode_utf8_valid_utf8(head@);
        lemma_boundary_by_byte(bytes, span.start as int);
        lemma_boundary_by_byte(head.spec_bytes(), span.start as int);
    }
    let (_, res) = head.split_at(span.start);
    proof {
        assert(res.spec_bytes() =~= span.of(text.spec_bytes()));
    }
    res
}

/// Whether two byte strings are the same.
pub fn bytes_equal(a: &[u8], b: &[u8]) -> (res: bool)
    ensures
        res == (a@ == b@),
{
    if a.len() != b.len() {
        return false;
    }
    let mut i: usize = 0;
    while i < a.len()
        invariant
            a.len() == b.len(),
            i <= a.len(),
            forall|k: int| 0 <= k < i ==> a@[k] == b@[k],
        decreases a.len() - i,
    {
        if a[i] != b[i] {
            return false;
        }
        i = i + 1;
    }
    assert(a@ =~= b@);
    true
}

/// Texts with the same bytes are the same texts.
pub proof fn lemma_same_bytes_same_text(a: Seq<char>, b: Seq<char>)
    requires
        encode_utf8(a) == encode_utf8(b),
    ensures
        a == b,
{
    encode_utf8_decode_utf8(a);
    encode_utf8_decode_utf8(b);
}

/// Whether two texts are the same.
pub fn same_text(a: &str, b: &str) -> (res: bool)
    ensures
        res == (a@ == b@),
{
    let res = bytes_equal(a.as_bytes(), b.as_bytes());
    proof {
        if res {
            lemma_same_bytes_same_text(a@, b@);
        }
    }
    res
}

/// The views of the strings.
pub open spec fn views(texts: Seq<String>) -> Seq<Seq<char>> {
    texts.map_values(|s: String| s@)
}

} // verus!
