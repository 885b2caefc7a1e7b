//! The reference scanner: from a document's text to the ordered list of the
//! reference targets in it.
//!
//! Two passes run over the lines. The first finds reference definitions and
//! remembers their labels; the second finds inline references and leaves out
//! each one whose target reads exactly like a remembered label. Offsets found
//! on a line are turned into offsets in the whole document by adding the
//! line's own offset.

use vstd::prelude::*;
use vstd::string::*;
use vstd::utf8::*;
use crate::lines::{lines, lines_of};
use crate::matcher::{captures, captures_of, Groups, INLINE_PATTERN, LINKREF_PATTERN};
use crate::order::{ascending, lemma_placed, lemma_sort_by_start, place, sort_by_start, Occurrence};
use crate::text::{lemma_boundary_inside, lemma_span_valid, slice, Span};

verus! {

/// One match of a reference pattern in a document, with offsets into the
/// whole document.
#[derive(Clone, Copy, Debug, PartialEq, Eq)]
pub struct Hit {
    /// The line that holds the match, counted from 1.
    pub line_no: usize,
    /// Where the label lies.
    pub label: Option<Span>,
    /// Where the target lies.
    pub target: Option<Span>,
}

/// Why a document could not be scanned.
#[derive(Clone, Copy, Debug, PartialEq, Eq)]
pub enum ScanError {
    /// The pattern engine refused a reference pattern.
    Pattern,
}

impl Hit {
    /// Label and target lie in `text`, between characters.
    pub open spec fn on_boundaries(self, text: Seq<u8>) -> bool {
        &&& self.label matches Some(label) ==> label.on_boundaries(text)
        &&& self.target matches Some(target) ==> target.on_boundaries(text)
    }

    /// The occurrence that the hit gives, where it has a target.
    pub open spec fn occurrence(self) -> Option<Occurrence> {
        match self.target {
            Some(span) => Some(Occurrence { line_no: self.line_no, span }),
            None => None,
        }
    }
}

/// The characters of a line.
pub open spec fn line_text(text: Seq<u8>, line: Span) -> Seq<char> {
    decode_utf8(line.of(text))
}

/// A span found on a line that begins at `base`, as a span of the document.
pub open spec fn lifted(span: Option<Span>, base: usize) -> Option<Span> {
    match span {
        Some(span) => Some(span.shifted(base as int)),
        None => None,
    }
}

/// The hit that a match on line `line_no`, which begins at `base`, stands for.
pub open spec fn hit_at(groups: Groups, line_no: usize, base: usize) -> Hit {
    Hit { line_no, label: lifted(groups.label, base), target: lifted(groups.target, base) }
}

/// The hits of `pattern` on the first `n` of the given lines of `text`, line
/// by line; `None` where the pattern is refused.
pub open spec fn hits_upto(pattern: Seq<char>, text: Seq<u8>, lines: Seq<Span>, n: int) -> Option<
    Seq<Hit>,
>
    decreases n,
{
    if n <= 0 {
        Some(Seq::empty())
    } else {
        let line = lines[n - 1];
        match (hits_upto(pattern, text, lines, n - 1), captures_of(pattern, line_text(text, line))) {
            (Some(before), Some(found)) => Some(
                before + found.map_values(|g: Groups| hit_at(g, n as usize, line.start)),
            ),
            _ => None,
        }
    }
}

/// The hits of `pattern` in `text`.
pub open spec fn hits_of(pattern: Seq<char>, text: Seq<u8>) -> Option<Seq<Hit>> {
    hits_upto(pattern, text, lines_of(text), lines_of(text).len() as int)
}

/// The targets of the hits, in the order of the hits.
pub open spec fn targets(hits: Seq<Hit>) -> Seq<Occurrence> {
    hits.filter_map(|h: Hit| h.occurrence())
}

/// The labels of the hits, in the order of the hits.
pub open spec fn labels(hits: Seq<Hit>) -> Seq<Span> {
    hits.filter_map(|h: Hit| h.label)
}

/// The bytes under `span` read exactly like one of the labels.
pub open spec fn is_defined(text: Seq<u8>, labels: Seq<Span>, span: Span) -> bool {
    exists|i: int| 0 <= i < labels.len() && (#[trigger] labels[i]).of(text) == span.of(text)
}

/// The occurrence of an inline hit, unless the hit has no target or its
/// target reads like a defined label.
pub open spec fn fresh_occurrence(text: Seq<u8>, labels: Seq<Span>, hit: Hit) -> Option<Occurrence> {
    match hit.target {
        Some(span) if !is_defined(text, labels, span) => hit.occurrence(),
        _ => None,
    }
}

/// The targets of the inline hits that do not read like a defined label.
pub open spec fn fresh_targets(text: Seq<u8>, labels: Seq<Span>, hits: Seq<Hit>) -> Seq<Occurrence> {
    hits.filter_map(|h: Hit| fresh_occurrence(text, labels, h))
}

/// What both passes record, before it is put in order: every target of a
/// reference definition, then every inline target that is not a defined
/// label.
pub open spec fn recorded(text: Seq<u8>, linkrefs: Seq<Hit>, inlines: Seq<Hit>) -> Seq<Occurrence> {
    targets(linkrefs) + fresh_targets(text, labels(linkrefs), inlines)
}

/// The occurrences that the hits of both passes give, in ascending order.
pub open spec fn gathered(text: Seq<u8>, linkrefs: Seq<Hit>, inlines: Seq<Hit>) -> Seq<Occurrence> {
    sort_by_start(recorded(text, linkrefs, inlines))
}

/// The occurrences of reference targets in `text`; `None` where a reference
/// pattern is refused.
pub open spec fn scanned(text: Seq<u8>) -> Option<Seq<Occurrence>> {
    match (hits_of(LINKREF_PATTERN@, text), hits_of(INLINE_PATTERN@, text)) {
        (Some(linkrefs), Some(inlines)) => Some(gathered(text, linkrefs, inlines)),
        _ => None,
    }
}

/// Once a pattern is refused on some line, it is refused for the document.
pub proof fn lemma_hits_refused(pattern: Seq<char>, text: Seq<u8>, lines: Seq<Span>, k: int, n: int)
    requires
        0 <= k <= n,
        hits_upto(pattern, text, lines, k) is None,
    ensures
        hits_upto(pattern, text, lines, n) is None,
    decreases n - k,
{
    if k < n {
        lemma_hits_refused(pattern, text, lines, k, n - 1);
    }
}

/// Whether the bytes under `a` and under `b` are the same.
pub fn same_bytes(text: &[u8], a: Span, b: Span) -> (res: bool)
    requires
        a.within(text@.len()),
        b.within(text@.len()),
    ensures
        res == (a.of(text@) == b.of(text@)),
{
    if a.end - a.start != b.end - b.start {
        assert(a.of(text@).len() != b.of(text@).len());
        return false;
    }
    let n = a.end - a.start;
    let mut i: usize = 0;
    while i < n
        invariant
            a.within(text@.len()),
            b.within(text@.len()),
            n == a.end - a.start,
            n == b.end - b.start,
            i <= n,
            forall|k: int| 0 <= k < i ==> (#[trigger] a.of(text@)[k]) == b.of(text@)[k],
        decreases n - i,
    {
        if text[a.start + i] != text[b.start + i] {
            assert(a.of(text@)[i as int] != b.of(text@)[i as int]);
            return false;
        }
        i = i + 1;
    }
    assert(a.of(text@) =~= b.of(text@));
    true
}

/// Whether the bytes under `span` read exactly like one of the labels.
pub fn defined(text: &[u8], labels: &Vec<Span>, span: Span) -> (res: bool)
    requires
        span.within(text@.len()),
        forall|i: int| 0 <= i < labels.len() ==> (#[trigger] labels[i]).within(text@.len()),
    ensures
        res == is_defined(text@, labels@, span),
{
    let mut i: usize = 0;
    while i < labels.len()
        invariant
            i <= labels.len(),
            span.within(text@.len()),
            forall|i: int| 0 <= i < labels.len() ==> (#[trigger] labels[i]).within(text@.len()),
            forall|k: int| 0 <= k < i ==> (#[trigger] labels[k]).of(text@) != span.of(text@),
        decreases labels.len() - i,
    {
        if same_bytes(text, labels[i], span) {
            return true;
        }
        i = i + 1;
    }
    false
}

/// Runs `pattern` over every line of `text` and collects the hits with
/// offsets into the whole text.
pub fn find_hits(pattern: &str, text: &str, lines: &Vec<Span>) -> (res: Result<Vec<Hit>, ScanError>)
    requires
        forall|k: int|
            0 <= k < lines.len() ==> (#[trigger] lines[k]).on_boundaries(text.spec_bytes()),
    ensures
        match res {
            Ok(hits) => {
                &&& hits_upto(pattern@, text.spec_bytes(), lines@, lines.len() as int) == Some(
                    hits@,
                )
                &&& forall|k: int|
                    0 <= k < hits.len() ==> (#[trigger] hits[k]).on_boundaries(text.spec_bytes())
            },
            Err(_) => hits_upto(pattern@, text.spec_bytes(), lines@, lines.len() as int) is None,
        },
{
    let ghost bytes = text.spec_bytes();
    proof {
        encode_utf8_valid_utf8(text@);
    }
    let mut hits: Vec<Hit> = Vec::new();
    let mut k: usize = 0;
    while k < lines.len()
        invariant
            k <= lines.len(),
            bytes == text.spec_bytes(),
            valid_utf8(bytes),
            forall|k: int| 0 <= k < lines.len() ==> (#[trigger] lines[k]).on_boundaries(bytes),
            hits_upto(pattern@, bytes, lines@, k as int) == Some(hits@),
            forall|i: int| 0 <= i < hits.len() ==> (#[trigger] hits[i]).on_boundaries(bytes),
        decreases lines.len() - k,
    {
        let line = lines[k];
        let haystack = slice(text, line);
        proof {
            encode_utf8_decode_utf8(haystack@);
            assert(haystack@ == line_text(bytes, line));
        }
        let found = match captures(pattern, haystack) {
            Ok(found) => found,
            Err(_) => {
                proof {
                    lemma_hits_refused(pattern@, bytes, lines@, k + 1, lines.len() as int);
                }
                return Err(ScanError::Pattern);
            },
        };
        let ghost before = hits@;
        let ghost lift = |g: Groups| hit_at(g, (k + 1) as usize, line.start);
        let mut j: usize = 0;
        while j < found.len()
            invariant
                j <= found.len(),
                k < lines.len(),
                line == lines[k as int],
                line.on_boundaries(bytes),
                valid_utf8(bytes),
                lift == |g: Groups| hit_at(g, (k + 1) as usize, line.start),
                forall|i: int|
                    0 <= i < found.len() ==> (#[trigger] found[i]).on_boundaries(line.of(bytes)),
                hits@ == before + found@.take(j as int).map_values(lift),
                forall|i: int| 0 <= i < hits.len() ==> (#[trigger] hits[i]).on_boundaries(bytes),
            decreases found.len() - j,
        {
            let groups = found[j];
            assert(groups.on_boundaries(line.of(bytes)));
            let label = match groups.label {
                Some(span) => {
                    proof {
                        lemma_boundary_inside(bytes, line, span.start as int);
                        lemma_boundary_inside(bytes, line, span.end as int);
                    }
                    Some(Span { start: line.start + span.start, end: line.start + span.end })
                },
                None => None,
            };
            let target = match groups.target {
                Some(span) => {
                    proof {
                        lemma_boundary_inside(bytes, line, span.start as int);
                        lemma_boundary_inside(bytes, line, span.end as int);
                    }
                    Some(Span { start: line.start + span.start, end: line.start + span.end })
                },
                None => None,
            };
            let hit = Hit { line_no: k + 1, label, target };
            proof {
                assert(hit == lift(groups));
                assert(found@.take(j + 1).map_values(lift) =~= found@.take(j as int).map_values(
                    lift,
                ).push(hit));
            }
            hits.push(hit);
            j = j + 1;
        }
        proof {
            assert(found@.take(found.len() as int) =~= found@);
        }
        k = k + 1;
    }
    Ok(hits)
}

/// Puts together what both passes found: the targets of the reference
/// definitions and the inline targets that are no defined label, in
/// ascending order of their offsets.
pub fn gather(text: &str, linkrefs: &Vec<Hit>, inlines: &Vec<Hit>) -> (res: Vec<Occurrence>)
    requires
        forall|k: int|
            0 <= k < linkrefs.len() ==> (#[trigger] linkrefs[k]).on_boundaries(text.spec_bytes()),
        forall|k: int|
            0 <= k < inlines.len() ==> (#[trigger] inlines[k]).on_boundaries(text.spec_bytes()),
    ensures
        res@ == gathered(text.spec_bytes(), linkrefs@, inlines@),
        ascending(res@),
        res@.to_multiset() == recorded(text.spec_bytes(), linkrefs@, inlines@).to_multiset(),
        forall|k: int| 0 <= k < res.len() ==> (#[trigger] res[k]).span.on_boundaries(text.spec_bytes()),
{
    let bytes = text.as_bytes();
    let ghost all = text.spec_bytes();
    let ghost occurrence = |h: Hit| h.occurrence();
    let ghost label = |h: Hit| h.label;
    let mut found: Vec<Occurrence> = Vec::new();
    let mut known: Vec<Span> = Vec::new();
    let mut i: usize = 0;
    while i < linkrefs.len()
        invariant
            i <= linkrefs.len(),
            occurrence == |h: Hit| h.occurrence(),
            label == |h: Hit| h.label,
            forall|k: int| 0 <= k < linkrefs.len() ==> (#[trigger] linkrefs[k]).on_boundaries(all),
            found@ == sort_by_start(linkrefs@.take(i as int).filter_map(occurrence)),
            known@ == linkrefs@.take(i as int).filter_map(label),
            forall|k: int| 0 <= k < found.len() ==> (#[trigger] found[k]).span.on_boundaries(all),
            forall|k: int| 0 <= k < known.len() ==> (#[trigger] known[k]).within(all.len()),
        decreases linkrefs.len() - i,
    {
        let hit = linkrefs[i];
        assert(hit.on_boundaries(all));
        proof {
            linkrefs@.lemma_filter_map_take_succ(occurrence, i as int);
            linkrefs@.lemma_filter_map_take_succ(label, i as int);
        }
        if let Some(span) = hit.target {
            let occ = Occurrence { line_no: hit.line_no, span };
            proof {
                let seen = linkrefs@.take(i as int).filter_map(occurrence);
                assert((seen + seq![occ]).drop_last() =~= seen);
                lemma_sort_by_start(seen);
                lemma_placed(sort_by_start(seen), occ);
            }
            place(&mut found, occ);
        }
        if let Some(span) = hit.label {
            known.push(span);
        }
        i = i + 1;
    }
    proof {
        assert(linkrefs@.take(linkrefs.len() as int) =~= linkrefs@);
    }
    let ghost first = targets(linkrefs@);
    let ghost fresh = |h: Hit| fresh_occurrence(all, known@, h);
    let mut j: usize = 0;
    while j < inlines.len()
        invariant
            j <= inlines.len(),
            bytes@ == all,
            known@ == labels(linkrefs@),
            fresh == |h: Hit| fresh_occurrence(all, known@, h),
            forall|k: int| 0 <= k < inlines.len() ==> (#[trigger] inlines[k]).on_boundaries(all),
            found@ == sort_by_start(first + inlines@.take(j as int).filter_map(fresh)),
            forall|k: int| 0 <= k < found.len() ==> (#[trigger] found[k]).span.on_boundaries(all),
            forall|k: int| 0 <= k < known.len() ==> (#[trigger] known[k]).within(all.len()),
        decreases inlines.len() - j,
    {
        let hit = inlines[j];
        assert(hit.on_boundaries(all));
        proof {
            inlines@.lemma_filter_map_take_succ(fresh, j as int);
        }
        if let Some(span) = hit.target {
            if !defined(bytes, &known, span) {
                let occ = Occurrence { line_no: hit.line_no, span };
                proof {
                    let seen = first + inlines@.take(j as int).filter_map(fresh);
                    assert(first + inlines@.take(j + 1).filter_map(fresh) =~= seen + seq![occ]);
                    assert((seen + seq![occ]).drop_last() =~= seen);
                    lemma_sort_by_start(seen);
                    lemma_placed(sort_by_start(seen), occ);
                }
                place(&mut found, occ);
            }
        }
        j = j + 1;
    }
    proof {
        assert(inlines@.take(inlines.len() as int) =~= inlines@);
        lemma_sort_by_start(recorded(all, linkrefs@, inlines@));
    }
    found
}

/// Scans a document for reference targets.
///
/// The result lists every target of a reference definition and every inline
/// target that is not a defined label, in ascending order of their offsets in
/// `text`. It fails only where the pattern engine refuses a reference
/// pattern.
pub fn scan(text: &str) -> (res: Result<Vec<Occurrence>, ScanError>)
    ensures
        match res {
            Ok(occs) => {
                &&& scanned(text.spec_bytes()) == Some(occs@)
                &&& ascending(occs@)
                &&& forall|k: int|
                    0 <= k < occs.len() ==> (#[trigger] occs[k]).span.on_boundaries(
                        text.spec_bytes(),
                    )
            },
            Err(_) => scanned(text.spec_bytes()) is None,
        },
{
    let index = lines(text);
    let linkrefs = match find_hits(LINKREF_PATTERN, text, &index) {
        Ok(hits) => hits,
        Err(e) => {
            return Err(e);
        },
    };
    let inlines = match find_hits(INLINE_PATTERN, text, &index) {
        Ok(hits) => hits,
        Err(e) => {
            return Err(e);
        },
    };
    Ok(gather(text, &linkrefs, &inlines))
}

/// An inline target that reads exactly like a defined label is not recorded
/// by the second pass: it occurs in the result as often as the first pass
/// recorded it, and no more.
pub proof fn law_defined_label_not_recorded(
    text: Seq<u8>,
    linkrefs: Seq<Hit>,
    inlines: Seq<Hit>,
    occ: Occurrence,
)
    requires
        is_defined(text, labels(linkrefs), occ.span),
    ensures
        !fresh_targets(text, labels(linkrefs), inlines).contains(occ),
        gathered(text, linkrefs, inlines).to_multiset().count(occ) == targets(
            linkrefs,
        ).to_multiset().count(occ),
{
    let known = labels(linkrefs);
    let fresh = fresh_targets(text, known, inlines);
    let pick = |h: Hit| fresh_occurrence(text, known, h);
    if fresh.contains(occ) {
        inlines.lemma_filter_map_contains(pick, occ);
        let h = choose|h: Hit| inlines.contains(h) && pick(h) == Some(occ);
        assert(fresh_occurrence(text, known, h) == Some(occ));
        assert(false);
    }
    lemma_sort_by_start(recorded(text, linkrefs, inlines));
    vstd::seq_lib::lemma_multiset_commutative(targets(linkrefs), fresh);
    fresh.to_multiset_ensures();
}

/// What the function keeps of an element of the sequence is in the result.
proof fn lemma_filter_map_keeps<A, B>(items: Seq<A>, f: spec_fn(A) -> Option<B>, k: int)
    requires
        0 <= k < items.len(),
        f(items[k]) is Some,
    ensures
        items.filter_map(f).contains(f(items[k])->0),
    decreases items.len(),
{
    let rest = items.drop_last();
    if k == items.len() - 1 {
        let res = items.filter_map(f);
        assert(res[res.len() - 1] == f(items[k])->0);
    } else {
        lemma_filter_map_keeps(rest, f, k);
        let kept = rest.filter_map(f);
        let i = choose|i: int| 0 <= i < kept.len() && kept[i] == f(items[k])->0;
        assert(items.filter_map(f)[i] == kept[i]);
    }
}

/// Every target of a reference definition is recorded, and every inline
/// target that reads like no defined label.
pub proof fn law_recorded_targets(text: Seq<u8>, linkrefs: Seq<Hit>, inlines: Seq<Hit>, k: int)
    ensures
        0 <= k < linkrefs.len() && linkrefs[k].target is Some ==> gathered(
            text,
            linkrefs,
            inlines,
        ).contains(linkrefs[k].occurrence()->0),
        0 <= k < inlines.len() && inlines[k].target is Some && !is_defined(
            text,
            labels(linkrefs),
            inlines[k].target->0,
        ) ==> gathered(text, linkrefs, inlines).contains(inlines[k].occurrence()->0),
{
    let known = labels(linkrefs);
    let all = recorded(text, linkrefs, inlines);
    lemma_sort_by_start(all);
    all.to_multiset_ensures();
    gathered(text, linkrefs, inlines).to_multiset_ensures();
    if 0 <= k < linkrefs.len() && linkrefs[k].target is Some {
        let occ = linkrefs[k].occurrence()->0;
        let first = targets(linkrefs);
        lemma_filter_map_keeps(linkrefs, |h: Hit| h.occurrence(), k);
        assert(first.contains(occ));
        let i = choose|i: int| 0 <= i < first.len() && first[i] == occ;
        assert(all[i] == occ);
        assert(all.to_multiset().count(occ) > 0);
        assert(gathered(text, linkrefs, inlines).to_multiset().count(occ) > 0);
    }
    if 0 <= k < inlines.len() && inlines[k].target is Some && !is_defined(
        text,
        known,
        inlines[k].target->0,
    ) {
        let occ = inlines[k].occurrence()->0;
        let fresh = fresh_targets(text, known, inlines);
        lemma_filter_map_keeps(inlines, |h: Hit| fresh_occurrence(text, known, h), k);
        assert(fresh.contains(occ));
        let i = choose|i: int| 0 <= i < fresh.len() && fresh[i] == occ;
        assert(all[targets(linkrefs).len() + i] == occ);
        assert(all.to_multiset().count(occ) > 0);
        assert(gathered(text, linkrefs, inlines).to_multiset().count(occ) > 0);
    }
}

} // verus!
