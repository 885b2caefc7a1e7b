//! The rewriter: puts replacements into a document's text in one pass from
//! left to right and leaves every other byte as it was.

use vstd::prelude::*;
use vstd::string::*;
use vstd::utf8::*;
use crate::text::{lemma_boundary_by_byte, slice, Span};

verus! {

/// A replacement as the contracts see it: a span of the document and the
/// bytes that take its place.
pub struct Patch {
    pub span: Span,
    pub bytes: Seq<u8>,
}

/// A replacement that was accepted: the target's span in the document and
/// the text that takes its place.
#[derive(Debug)]
pub struct Edit {
    pub span: Span,
    pub replacement: String,
}

impl View for Edit {
    type V = Patch;

    open spec fn view(&self) -> Patch {
        Patch { span: self.span, bytes: encode_utf8(self.replacement@) }
    }
}

/// The edits as the contracts see them.
pub open spec fn patches(edits: Seq<Edit>) -> Seq<Patch> {
    edits.map_values(|e: Edit| e@)
}

/// The patches come in ascending order and no two of them overlap.
pub open spec fn disjoint(patches: Seq<Patch>) -> bool {
    forall|i: int, j: int|
        0 <= i < j < patches.len() ==> (#[trigger] patches[i]).span.end <= (
        #[trigger] patches[j]).span.start
}

/// The patches lie in `text` between characters, in ascending order, and no
/// two of them overlap.
pub open spec fn patches_fit(text: Seq<u8>, patches: Seq<Patch>) -> bool {
    &&& forall|i: int| 0 <= i < patches.len() ==> (#[trigger] patches[i]).span.on_boundaries(text)
    &&& disjoint(patches)
}

/// Where the last of the patches ends; 0 where there is none.
pub open spec fn reach(patches: Seq<Patch>) -> int {
    if patches.len() == 0 {
        0
    } else {
        patches.last().span.end as int
    }
}

/// `text` with the span of each patch replaced by the bytes of the patch.
pub open spec fn rewritten(text: Seq<u8>, patches: Seq<Patch>) -> Seq<u8>
    decreases patches.len(),
{
    if patches.len() == 0 {
        text
    } else {
        let last = patches.last();
        rewritten(text.subrange(0, last.span.start as int), patches.drop_last()) + last.bytes
            + text.subrange(last.span.end as int, text.len() as int)
    }
}

/// With one more patch the patches are disjoint exactly where they were
/// disjoint before and the new patch begins at or behind their end.
pub proof fn lemma_disjoint_push(done: Seq<Patch>, patch: Patch)
    requires
        forall|i: int| 0 <= i < done.len() ==> (#[trigger] done[i]).span.start <= done[i].span.end,
    ensures
        disjoint(done.push(patch)) <==> disjoint(done) && reach(done) <= patch.span.start,
{
    let next = done.push(patch);
    if disjoint(done) && reach(done) <= patch.span.start {
        assert forall|i: int, j: int| 0 <= i < j < next.len() implies (#[trigger] next[i]).span.end
            <= (#[trigger] next[j]).span.start by {
            if j == done.len() {
                if i < done.len() - 1 {
                    assert(done[i].span.end <= done[done.len() - 1].span.start);
                }
                assert(done[done.len() - 1].span.start <= done[done.len() - 1].span.end);
            } else {
                assert(done[i].span.end <= done[j].span.start);
            }
        }
    }
    if disjoint(next) {
        assert forall|i: int, j: int| 0 <= i < j < done.len() implies (#[trigger] done[i]).span.end
            <= (#[trigger] done[j]).span.start by {
            assert(next[i].span.end <= next[j].span.start);
        }
        if done.len() > 0 {
            assert(next[done.len() - 1].span.end <= next[done.len() as int].span.start);
        }
    }
}

/// Encoding a concatenation gives the concatenation of the encodings.
pub proof fn lemma_encode_concat(a: Seq<char>, b: Seq<char>)
    ensures
        encode_utf8(a + b) == encode_utf8(a) + encode_utf8(b),
    decreases a.len(),
{
    if a.len() == 0 {
        assert(a + b =~= b);
        assert(encode_utf8(a) + encode_utf8(b) =~= encode_utf8(b));
    } else {
        lemma_encode_concat(a.drop_first(), b);
        assert((a + b).drop_first() =~= a.drop_first() + b);
        assert(encode_utf8(a + b) =~= encode_utf8(a) + encode_utf8(b));
    }
}

/// Bytes behind the last edit pass through unchanged: rewriting the first
/// `upto` bytes gives what rewriting up to the last edit's end gives,
/// followed by the bytes from there to `upto`.
pub proof fn lemma_rewritten_tail(text: Seq<u8>, edits: Seq<Patch>, upto: int)
    requires
        forall|i: int| 0 <= i < edits.len() ==> (#[trigger] edits[i]).span.within(text.len()),
        reach(edits) <= upto <= text.len(),
    ensures
        rewritten(text.subrange(0, upto), edits) == rewritten(
            text.subrange(0, reach(edits)),
            edits,
        ) + text.subrange(reach(edits), upto),
{
    if edits.len() == 0 {
        assert(text.subrange(0, 0) + text.subrange(0, upto) =~= text.subrange(0, upto));
    } else {
        let last = edits.last();
        let start = last.span.start as int;
        let end = last.span.end as int;
        assert(last.span.within(text.len()));
        assert(text.subrange(0, upto).subrange(0, start) =~= text.subrange(0, start));
        assert(text.subrange(0, end).subrange(0, start) =~= text.subrange(0, start));
        assert(text.subrange(0, upto).subrange(end, upto) =~= text.subrange(end, upto));
        assert(text.subrange(0, end).subrange(end, end) =~= Seq::<u8>::empty());
        let head = rewritten(text.subrange(0, start), edits.drop_last()) + last.bytes;
        assert(head + Seq::<u8>::empty() =~= head);
    }
}

/// Applies the edits to `text`.
///
/// The result is the text before the first edit, then in turn each edit's
/// replacement and the text up to the next edit, and at last the text behind
/// the last edit.
pub fn rewrite(text: &str, edits: &Vec<Edit>) -> (res: String)
    requires
        patches_fit(text.spec_bytes(), patches(edits@)),
    ensures
        encode_utf8(res@) == rewritten(text.spec_bytes(), patches(edits@)),
{
    let ghost all = patches(edits@);
    let ghost bytes = text.spec_bytes();
    proof {
        encode_utf8_valid_utf8(text@);
        lemma_boundary_by_byte(bytes, 0);
        lemma_boundary_by_byte(bytes, bytes.len() as int);
        assert(bytes.subrange(0, 0) =~= Seq::<u8>::empty());
    }
    let mut out = String::new();
    let mut written: usize = 0;
    let mut i: usize = 0;
    while i < edits.len()
        invariant
            i <= edits.len(),
            bytes == text.spec_bytes(),
            valid_utf8(bytes),
            all == patches(edits@),
            patches_fit(bytes, all),
            written == reach(all.take(i as int)),
            written <= bytes.len(),
            is_char_boundary(bytes, written as int),
            encode_utf8(out@) == rewritten(bytes.subrange(0, written as int), all.take(i as int)),
        decreases edits.len() - i,
    {
        let edit = &edits[i];
        let ghost done = all.take(i as int);
        let ghost next = all.take(i + 1);
        proof {
            assert(all[i as int] == edit@);
            assert(all[i as int].span.on_boundaries(bytes));
            if i > 0 {
                assert(done.last() == all[i - 1]);
                assert(all[i - 1].span.end <= all[i as int].span.start);
            }
            assert forall|k: int| 0 <= k < done.len() implies (#[trigger] done[k]).span.within(
                bytes.len(),
            ) by {
                assert(done[k] == all[k]);
                assert(all[k].span.on_boundaries(bytes));
            }
            lemma_rewritten_tail(bytes, done, edit.span.start as int);
        }
        let kept = slice(text, Span { start: written, end: edit.span.start });
        let ghost before = out@;
        out.append(kept);
        out.append(edit.replacement.as_str());
        proof {
            encode_utf8_decode_utf8(kept@);
            lemma_encode_concat(before, kept@);
            lemma_encode_concat(before + kept@, edit.replacement@);
            assert(next.last() == edit@);
            assert(next.drop_last() =~= done);
            let end = edit.span.end as int;
            let start = edit.span.start as int;
            assert(bytes.subrange(0, end).subrange(0, start) =~= bytes.subrange(0, start));
            assert(bytes.subrange(0, end).subrange(end, end) =~= Seq::<u8>::empty());
            assert(encode_utf8(out@) =~= rewritten(bytes.subrange(0, end), next));
        }
        written = edit.span.end;
        i = i + 1;
    }
    let ghost before = out@;
    proof {
        lemma_boundary_by_byte(bytes, bytes.len() as int);
    }
    let rest = slice(text, Span { start: written, end: text.as_bytes().len() });
    out.append(rest);
    proof {
        encode_utf8_decode_utf8(rest@);
        assert(all.take(edits.len() as int) =~= all);
        assert forall|k: int| 0 <= k < all.len() implies (#[trigger] all[k]).span.within(
            bytes.len(),
        ) by {
            assert(all[k].span.on_boundaries(bytes));
        }
        lemma_rewritten_tail(bytes, all, bytes.len() as int);
        lemma_encode_concat(before, rest@);
        assert(bytes.subrange(0, bytes.len() as int) =~= bytes);
    }
    out
}

/// By how many bytes a patch makes the text longer.
pub open spec fn growth(patch: Patch) -> int {
    patch.bytes.len() - (patch.span.end - patch.span.start)
}

/// By how many bytes the patches together make the text longer.
pub open spec fn total_growth(patches: Seq<Patch>) -> int
    decreases patches.len(),
{
    if patches.len() == 0 {
        0
    } else {
        total_growth(patches.drop_last()) + growth(patches.last())
    }
}

/// By how many bytes the patches that end at or before `offset` make the
/// text longer.
pub open spec fn growth_before(patches: Seq<Patch>, offset: int) -> int
    decreases patches.len(),
{
    if patches.len() == 0 {
        0
    } else {
        growth_before(patches.drop_last(), offset) + if patches.last().span.end <= offset {
            growth(patches.last())
        } else {
            0
        }
    }
}

/// No patch covers the byte at `offset`.
pub open spec fn untouched(patches: Seq<Patch>, offset: int) -> bool {
    forall|i: int|
        0 <= i < patches.len() ==> !((#[trigger] patches[i]).span.start <= offset
            < patches[i].span.end)
}

/// The patches lie in a text of `len` bytes, in ascending order, and no two
/// of them overlap.
pub open spec fn patches_within(len: nat, patches: Seq<Patch>) -> bool {
    &&& forall|i: int| 0 <= i < patches.len() ==> (#[trigger] patches[i]).span.within(len)
    &&& disjoint(patches)
}

/// All but the last patch lie in the text before the last patch.
proof fn lemma_earlier_patches(len: nat, patches: Seq<Patch>)
    requires
        patches_within(len, patches),
        patches.len() > 0,
    ensures
        patches_within(patches.last().span.start as nat, patches.drop_last()),
{
    let rest = patches.drop_last();
    assert forall|i: int| 0 <= i < rest.len() implies (#[trigger] rest[i]).span.within(
        patches.last().span.start as nat,
    ) by {
        assert(rest[i] == patches[i]);
        assert(patches[i].span.within(len));
        assert(patches[i].span.end <= patches[patches.len() - 1].span.start);
    }
    assert forall|i: int, j: int| 0 <= i < j < rest.len() implies (#[trigger] rest[i]).span.end <= (
    #[trigger] rest[j]).span.start by {
        assert(rest[i] == patches[i] && rest[j] == patches[j]);
    }
}

/// Patches that all end at or before `offset` all count before it.
proof fn lemma_growth_before_all(patches: Seq<Patch>, offset: int)
    requires
        forall|i: int| 0 <= i < patches.len() ==> (#[trigger] patches[i]).span.end <= offset,
    ensures
        growth_before(patches, offset) == total_growth(patches),
    decreases patches.len(),
{
    if patches.len() > 0 {
        let rest = patches.drop_last();
        assert forall|i: int| 0 <= i < rest.len() implies (#[trigger] rest[i]).span.end <= offset by {
            assert(rest[i] == patches[i]);
        }
        lemma_growth_before_all(rest, offset);
        assert(patches[patches.len() - 1].span.end <= offset);
    }
}

/// Rewriting changes the length of the text by what the patches add and
/// take away.
pub proof fn law_rewritten_length(text: Seq<u8>, patches: Seq<Patch>)
    requires
        patches_within(text.len(), patches),
    ensures
        rewritten(text, patches).len() == text.len() + total_growth(patches),
    decreases patches.len(),
{
    if patches.len() > 0 {
        let last = patches.last();
        assert(last.span.within(text.len()));
        lemma_earlier_patches(text.len(), patches);
        law_rewritten_length(text.subrange(0, last.span.start as int), patches.drop_last());
    }
}

/// Rewriting keeps every byte that no patch covers: the byte at `offset`
/// stands in the new text, moved by what the patches before it add and take
/// away.
pub proof fn law_rewrite_keeps_bytes(text: Seq<u8>, patches: Seq<Patch>, offset: int)
    requires
        patches_within(text.len(), patches),
        0 <= offset < text.len(),
        untouched(patches, offset),
    ensures
        0 <= offset + growth_before(patches, offset) < rewritten(text, patches).len(),
        rewritten(text, patches)[offset + growth_before(patches, offset)] == text[offset],
    decreases patches.len(),
{
    if patches.len() > 0 {
        let last = patches.last();
        let rest = patches.drop_last();
        let head = text.subrange(0, last.span.start as int);
        assert(last.span.within(text.len()));
        assert(!(last.span.start <= offset < last.span.end));
        lemma_earlier_patches(text.len(), patches);
        law_rewritten_length(head, rest);
        if offset < last.span.start {
            assert forall|i: int| 0 <= i < rest.len() implies !((#[trigger] rest[i]).span.start
                <= offset < rest[i].span.end) by {
                assert(rest[i] == patches[i]);
            }
            law_rewrite_keeps_bytes(head, rest, offset);
        } else {
            assert forall|i: int| 0 <= i < rest.len() implies (#[trigger] rest[i]).span.end
                <= offset by {
                assert(rest[i].span.within(last.span.start as nat));
            }
            lemma_growth_before_all(rest, offset);
        }
    }
}

/// Rewriting puts each replacement where its span began, moved by what the
/// patches before it add and take away.
pub proof fn law_rewrite_puts_replacements(text: Seq<u8>, patches: Seq<Patch>, k: int)
    requires
        patches_within(text.len(), patches),
        0 <= k < patches.len(),
    ensures
        ({
            let at = patches[k].span.start + total_growth(patches.take(k));
            &&& 0 <= at
            &&& at + patches[k].bytes.len() <= rewritten(text, patches).len()
            &&& rewritten(text, patches).subrange(at, at + patches[k].bytes.len())
                == patches[k].bytes
        }),
    decreases patches.len(),
{
    let last = patches.last();
    let rest = patches.drop_last();
    let head = text.subrange(0, last.span.start as int);
    assert(last.span.within(text.len()));
    lemma_earlier_patches(text.len(), patches);
    law_rewritten_length(head, rest);
    if k == patches.len() - 1 {
        assert(patches.take(k) =~= rest);
        let at = last.span.start + total_growth(rest);
        assert(rewritten(text, patches).subrange(at, at + last.bytes.len()) =~= last.bytes);
    } else {
        law_rewrite_puts_replacements(head, rest, k);
        assert(rest.take(k) =~= patches.take(k));
        assert(rest[k] == patches[k]);
        let at = patches[k].span.start + total_growth(patches.take(k));
        assert(rewritten(text, patches).subrange(at, at + patches[k].bytes.len()) =~= rewritten(
            head,
            rest,
        ).subrange(at, at + patches[k].bytes.len()));
    }
}

/// Without patches the text stays as it is.
pub proof fn law_rewrite_nothing(text: Seq<u8>)
    ensures
        rewritten(text, Seq::empty()) == text,
{
}

} // verus!
