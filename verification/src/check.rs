//! Checking a whole document: scan it, resolve each reference target in
//! turn, and rewrite the text where a target was repaired.

use vstd::prelude::*;
use vstd::string::*;
use vstd::utf8::*;
use crate::context::Context;
use crate::counts::Counts;
use crate::document::{Document, DocumentView};
use crate::order::Occurrence;
use crate::paths::join;
use crate::resolve::{
    fate, out_of_scope, replacement, resolved, starts_with, strip_fragment, tally, Fate, Notice,
    Resolution, Warning,
};
use crate::rewrite::{disjoint, lemma_disjoint_push, patches, reach, rewrite, rewritten, Edit, Patch};
use crate::scan::{scan, scanned};
use crate::text::{slice, views};

verus! {

/// Why a document was not checked.
#[derive(Clone, Copy, Debug, PartialEq, Eq)]
pub enum CheckError {
    /// The pattern engine refused a reference pattern.
    Pattern,
    /// A counter of the statistics would pass the largest number it can hold.
    Overflow,
    /// Two targets that are to be replaced overlap in the text.
    Overlap,
}

/// What checking a document gave.
#[derive(Debug)]
pub struct FileReport {
    /// The new text of the document, where a target was replaced.
    pub text: Option<String>,
    /// The references that no known file could repair, in the order of
    /// their offsets.
    pub warnings: Vec<Warning>,
}

/// What a document is checked against.
pub struct Scene {
    /// The known files by base name.
    pub index: Map<Seq<char>, Seq<Seq<char>>>,
    /// The document.
    pub doc: DocumentView,
    /// The paths that lead to a file.
    pub existing: Seq<Seq<char>>,
    /// The bytes of the document's text.
    pub text: Seq<u8>,
}

impl Scene {
    /// The target that stands at `occ`.
    pub open spec fn target(self, occ: Occurrence) -> Seq<char> {
        decode_utf8(occ.span.of(self.text))
    }

    /// What becomes of the target at `occ`.
    pub open spec fn fate(self, occ: Occurrence) -> Fate {
        fate(self.index, self.doc.dir, self.existing, self.target(occ))
    }

    /// The patch for the target at `occ`, where the target is repaired.
    pub open spec fn patch(self, occ: Occurrence) -> Option<Patch> {
        match replacement(self.index, self.doc.dir, self.existing, self.target(occ)) {
            Some(text) => Some(Patch { span: occ.span, bytes: encode_utf8(text) }),
            None => None,
        }
    }

    /// The warning for the target at `occ`, where no known file bears its
    /// base name.
    pub open spec fn notice(self, occ: Occurrence) -> Option<Notice> {
        if self.fate(occ) == Fate::Unknown {
            Some(Notice { file: self.doc.path, line_no: occ.line_no, target: self.target(occ) })
        } else {
            None
        }
    }

    /// The patches for the occurrences, in their order.
    pub open spec fn planned(self, occs: Seq<Occurrence>) -> Seq<Patch> {
        occs.filter_map(|o: Occurrence| self.patch(o))
    }

    /// The warnings for the occurrences, in their order.
    pub open spec fn notices(self, occs: Seq<Occurrence>) -> Seq<Notice> {
        occs.filter_map(|o: Occurrence| self.notice(o))
    }

    /// What the occurrences add to the statistics.
    pub open spec fn total(self, occs: Seq<Occurrence>) -> Counts
        decreases occs.len(),
    {
        if occs.len() == 0 {
            Counts::zero()
        } else {
            self.total(occs.drop_last()).plus(
                tally(self.index, self.doc.dir, self.existing, self.target(occs.last())),
            )
        }
    }

    /// The new text of the document; `None` where no target is replaced.
    pub open spec fn new_text(self, occs: Seq<Occurrence>) -> Option<Seq<u8>> {
        if self.planned(occs).len() > 0 {
            Some(rewritten(self.text, self.planned(occs)))
        } else {
            None
        }
    }
}

/// The path to look for on behalf of the target at `occ` of a document in
/// the directory `dir`, where the target is a path.
pub open spec fn probe_at(dir: Seq<char>, text: Seq<u8>, occ: Occurrence) -> Option<Seq<char>> {
    let target = decode_utf8(occ.span.of(text));
    if out_of_scope(target) {
        None
    } else {
        Some(resolved(dir, target))
    }
}

/// The paths to look for on behalf of the occurrences, in their order.
pub open spec fn probes(dir: Seq<char>, text: Seq<u8>, occs: Seq<Occurrence>) -> Seq<Seq<char>> {
    occs.filter_map(|o: Occurrence| probe_at(dir, text, o))
}

/// The bytes of an optional text.
pub open spec fn opt_bytes(text: Option<String>) -> Option<Seq<u8>> {
    match text {
        Some(text) => Some(encode_utf8(text@)),
        None => None,
    }
}

/// The warnings as the contracts see them.
pub open spec fn notices_of(warnings: Seq<Warning>) -> Seq<Notice> {
    warnings.map_values(|w: Warning| w@)
}

/// No counter that the occurrences add is above their number.
pub proof fn lemma_total_at_most(scene: Scene, occs: Seq<Occurrence>)
    requires
        occs.len() <= usize::MAX,
    ensures
        scene.total(occs).at_most(occs.len() as int),
    decreases occs.len(),
{
    if occs.len() > 0 {
        lemma_total_at_most(scene, occs.drop_last());
    }
}

/// The paths whose existence decides what becomes of the targets at
/// `occurrences`: for each target that is a path, the path it names seen
/// from the document's directory.
pub fn probe_paths(file: &Document, text: &str, occurrences: &Vec<Occurrence>) -> (res: Vec<String>)
    requires
        forall|k: int|
            0 <= k < occurrences.len() ==> (#[trigger] occurrences[k]).span.on_boundaries(
                text.spec_bytes(),
            ),
    ensures
        views(res@) == probes(file@.dir, text.spec_bytes(), occurrences@),
{
    let ghost bytes = text.spec_bytes();
    let ghost probe = |o: Occurrence| probe_at(file@.dir, bytes, o);
    let mut res: Vec<String> = Vec::new();
    let mut k: usize = 0;
    while k < occurrences.len()
        invariant
            k <= occurrences.len(),
            bytes == text.spec_bytes(),
            probe == |o: Occurrence| probe_at(file@.dir, bytes, o),
            forall|i: int|
                0 <= i < occurrences.len() ==> (#[trigger] occurrences[i]).span.on_boundaries(bytes),
            views(res@) == occurrences@.take(k as int).filter_map(probe),
        decreases occurrences.len() - k,
    {
        let occ = occurrences[k];
        assert(occ.span.on_boundaries(bytes));
        let target = slice(text, occ.span);
        proof {
            encode_utf8_decode_utf8(target@);
            occurrences@.lemma_filter_map_take_succ(probe, k as int);
        }
        if !(starts_with(target, "http:") || starts_with(target, "https:") || starts_with(
            target,
            "#",
        )) {
            let path = join(file.dir(), strip_fragment(target));
            proof {
                assert(views(res@.push(path)) =~= views(res@).push(path@));
            }
            res.push(path);
        }
        k = k + 1;
    }
    proof {
        assert(occurrences@.take(occurrences.len() as int) =~= occurrences@);
    }
    res
}

/// Scans `text` and lists the paths whose existence decides what becomes of
/// its reference targets.
pub fn probe_file(file: &Document, text: &str) -> (res: Result<Vec<String>, CheckError>)
    ensures
        match scanned(text.spec_bytes()) {
            Some(occs) => res matches Ok(paths) && views(paths@) == probes(
                file@.dir,
                text.spec_bytes(),
                occs,
            ),
            None => res matches Err(e) && e == CheckError::Pattern,
        },
{
    match scan(text) {
        Ok(occurrences) => Ok(probe_paths(file, text, &occurrences)),
        Err(_) => Err(CheckError::Pattern),
    }
}

impl Context {
    /// The scene that a document is checked against.
    pub open spec fn scene(&self, file: &Document, text: &str, existing: &Vec<String>) -> Scene {
        Scene {
            index: self.filenames@,
            doc: file@,
            existing: views(existing@),
            text: text.spec_bytes(),
        }
    }

    /// Resolves the targets at `occurrences` in turn and rewrites the text
    /// where a target was repaired.
    ///
    /// Each target is counted. The report holds the new text, where any
    /// target was replaced, and the warnings. Where two targets that are to
    /// be replaced overlap, nothing is counted and the document is not
    /// rewritten.
    pub fn check_occurrences(
        &mut self,
        file: &Document,
        text: &str,
        occurrences: &Vec<Occurrence>,
        existing: &Vec<String>,
    ) -> (res: Result<FileReport, CheckError>)
        requires
            old(self).count.has_room(occurrences.len() as int),
            forall|k: int|
                0 <= k < occurrences.len() ==> (#[trigger] occurrences[k]).span.on_boundaries(
                    text.spec_bytes(),
                ),
        ensures
            final(self).filenames == old(self).filenames,
            match res {
                Ok(report) => {
                    let scene = old(self).scene(file, text, existing);
                    &&& disjoint(scene.planned(occurrences@))
                    &&& opt_bytes(report.text) == scene.new_text(occurrences@)
                    &&& notices_of(report.warnings@) == scene.notices(occurrences@)
                    &&& final(self).count == old(self).count.plus(scene.total(occurrences@))
                },
                Err(e) => {
                    &&& e == CheckError::Overlap
                    &&& !disjoint(old(self).scene(file, text, existing).planned(occurrences@))
                    &&& final(self).count == old(self).count
                },
            },
    {
        let ghost scene = self.scene(file, text, existing);
        let ghost bytes = text.spec_bytes();
        let ghost patch = |o: Occurrence| scene.patch(o);
        let ghost notice = |o: Occurrence| scene.notice(o);
        let start = self.count;
        let mut edits: Vec<Edit> = Vec::new();
        let mut warnings: Vec<Warning> = Vec::new();
        let mut written: usize = 0;
        let mut overlap = false;
        let mut k: usize = 0;
        proof {
            encode_utf8_valid_utf8(text@);
        }
        while k < occurrences.len()
            invariant
                k <= occurrences.len(),
                bytes == text.spec_bytes(),
                valid_utf8(bytes),
                scene == old(self).scene(file, text, existing),
                self.filenames == old(self).filenames,
                patch == |o: Occurrence| scene.patch(o),
                notice == |o: Occurrence| scene.notice(o),
                start == old(self).count,
                start.has_room(occurrences.len() as int),
                forall|i: int|
                    0 <= i < occurrences.len() ==> (#[trigger] occurrences[i]).span.on_boundaries(
                        bytes,
                    ),
                self.count == start.plus(scene.total(occurrences@.take(k as int))),
                patches(edits@) == occurrences@.take(k as int).filter_map(patch),
                forall|i: int|
                    0 <= i < edits.len() ==> (#[trigger] edits[i]).span.on_boundaries(bytes),
                notices_of(warnings@) == occurrences@.take(k as int).filter_map(notice),
                overlap <==> !disjoint(patches(edits@)),
                !overlap ==> written == reach(patches(edits@)),
            decreases occurrences.len() - k,
        {
            let occ = occurrences[k];
            let ghost done = occurrences@.take(k as int);
            let ghost next = occurrences@.take(k + 1);
            assert(occ.span.on_boundaries(bytes));
            let target = slice(text, occ.span);
            proof {
                encode_utf8_decode_utf8(target@);
                assert(target@ == scene.target(occ));
                assert(next.drop_last() =~= done);
                lemma_total_at_most(scene, done);
                occurrences@.lemma_filter_map_take_succ(patch, k as int);
                occurrences@.lemma_filter_map_take_succ(notice, k as int);
            }
            let Resolution { replacement, warning } = self.check_url(
                file,
                occ.line_no,
                target,
                existing,
            );
            if let Some(w) = warning {
                proof {
                    assert(notices_of(warnings@.push(w)) =~= notices_of(warnings@).push(w@));
                }
                warnings.push(w);
            }
            if let Some(text) = replacement {
                let edit = Edit { span: occ.span, replacement: text };
                proof {
                    assert(patches(edits@.push(edit)) =~= patches(edits@).push(edit@));
                    assert forall|i: int| 0 <= i < patches(edits@).len() implies (#[trigger] patches(
                        edits@,
                    )[i]).span.start <= patches(edits@)[i].span.end by {
                        assert(edits[i].span.on_boundaries(bytes));
                    }
                    lemma_disjoint_push(patches(edits@), edit@);
                }
                if overlap || occ.span.start < written {
                    overlap = true;
                } else {
                    written = occ.span.end;
                }
                edits.push(edit);
            }
            k = k + 1;
        }
        proof {
            assert(occurrences@.take(occurrences.len() as int) =~= occurrences@);
        }
        if overlap {
            self.count = start;
            return Err(CheckError::Overlap);
        }
        let text = if edits.len() > 0 {
            Some(rewrite(text, &edits))
        } else {
            None
        };
        Ok(FileReport { text, warnings })
    }

    /// Checks one document: scans `text` for reference targets, resolves
    /// each against the paths in `existing`, and rewrites the text where a
    /// target was repaired.
    ///
    /// On an error nothing is counted.
    pub fn check_file(&mut self, file: &Document, text: &str, existing: &Vec<String>) -> (res:
        Result<FileReport, CheckError>)
        ensures
            final(self).filenames == old(self).filenames,
            match scanned(text.spec_bytes()) {
                None => {
                    &&& res matches Err(e) && e == CheckError::Pattern
                    &&& final(self).count == old(self).count
                },
                Some(occs) => {
                    let scene = old(self).scene(file, text, existing);
                    if !old(self).count.has_room(occs.len() as int) {
                        &&& res matches Err(e) && e == CheckError::Overflow
                        &&& final(self).count == old(self).count
                    } else if !disjoint(scene.planned(occs)) {
                        &&& res matches Err(e) && e == CheckError::Overlap
                        &&& final(self).count == old(self).count
                    } else {
                        &&& res matches Ok(report)
                        &&& opt_bytes(report.text) == scene.new_text(occs)
                        &&& notices_of(report.warnings@) == scene.notices(occs)
                        &&& final(self).count == old(self).count.plus(scene.total(occs))
                    }
                },
            },
    {
        let occurrences = match scan(text) {
            Ok(occurrences) => occurrences,
            Err(_) => {
                return Err(CheckError::Pattern);
            },
        };
        if !self.count.can_grow_by(occurrences.len()) {
            return Err(CheckError::Overflow);
        }
        self.check_occurrences(file, text, &occurrences, existing)
    }
}

/// What holds of a document in which every target is a web address, a bare
/// fragment, or a path that leads to a file.
proof fn lemma_nothing_missing(scene: Scene, occs: Seq<Occurrence>)
    requires
        occs.len() <= usize::MAX,
        forall|k: int|
            0 <= k < occs.len() ==> scene.fate(#[trigger] occs[k]) == Fate::Skipped || scene.fate(
                occs[k],
            ) == Fate::Present,
    ensures
        scene.planned(occs).len() == 0,
        scene.notices(occs).len() == 0,
        scene.total(occs).urls == occs.len(),
        scene.total(occs).paths <= occs.len(),
        scene.total(occs).missing == 0,
        scene.total(occs).matches == 0,
        scene.total(occs).ambiguous == 0,
        scene.total(occs).ties == 0,
    decreases occs.len(),
{
    if occs.len() > 0 {
        let rest = occs.drop_last();
        assert forall|k: int| 0 <= k < rest.len() implies scene.fate(#[trigger] rest[k])
            == Fate::Skipped || scene.fate(rest[k]) == Fate::Present by {
            assert(rest[k] == occs[k]);
        }
        lemma_nothing_missing(scene, rest);
        let last = occs[occs.len() - 1];
        assert(scene.fate(last) == Fate::Skipped || scene.fate(last) == Fate::Present);
    }
}

/// A document without a path among its references is never rewritten, gives
/// no warning, and adds to no counter but that of the references seen.
pub proof fn law_no_paths_no_change(scene: Scene, occs: Seq<Occurrence>)
    requires
        occs.len() <= usize::MAX,
        forall|k: int| 0 <= k < occs.len() ==> out_of_scope(scene.target(#[trigger] occs[k])),
    ensures
        scene.new_text(occs) is None,
        disjoint(scene.planned(occs)),
        scene.notices(occs).len() == 0,
        scene.total(occs) == (Counts { urls: occs.len() as usize, ..Counts::zero() }),
{
    assert forall|k: int| 0 <= k < occs.len() implies scene.fate(#[trigger] occs[k])
        == Fate::Skipped by {
        assert(out_of_scope(scene.target(occs[k])));
    }
    lemma_paths_none(scene, occs);
    lemma_nothing_missing(scene, occs);
}

/// Targets that are all out of scope count as no paths.
proof fn lemma_paths_none(scene: Scene, occs: Seq<Occurrence>)
    requires
        occs.len() <= usize::MAX,
        forall|k: int| 0 <= k < occs.len() ==> scene.fate(#[trigger] occs[k]) == Fate::Skipped,
    ensures
        scene.total(occs).paths == 0,
    decreases occs.len(),
{
    if occs.len() > 0 {
        let rest = occs.drop_last();
        assert forall|k: int| 0 <= k < rest.len() implies scene.fate(#[trigger] rest[k])
            == Fate::Skipped by {
            assert(rest[k] == occs[k]);
        }
        lemma_paths_none(scene, rest);
        assert(scene.fate(occs[occs.len() - 1]) == Fate::Skipped);
    }
}

/// A document in which every path leads to a file is never rewritten and
/// gives no warning: checking a consistent set of documents changes nothing.
pub proof fn law_consistent_document_unchanged(scene: Scene, occs: Seq<Occurrence>)
    requires
        occs.len() <= usize::MAX,
        forall|k: int|
            0 <= k < occs.len() ==> out_of_scope(scene.target(#[trigger] occs[k]))
                || scene.existing.contains(resolved(scene.doc.dir, scene.target(occs[k]))),
    ensures
        scene.new_text(occs) is None,
        disjoint(scene.planned(occs)),
        scene.notices(occs).len() == 0,
        scene.total(occs).urls == occs.len(),
        scene.total(occs).missing == 0,
        scene.total(occs).matches == 0,
        scene.total(occs).ambiguous == 0,
        scene.total(occs).ties == 0,
{
    assert forall|k: int| 0 <= k < occs.len() implies scene.fate(#[trigger] occs[k])
        == Fate::Skipped || scene.fate(occs[k]) == Fate::Present by {
        assert(out_of_scope(scene.target(occs[k])) || scene.existing.contains(
            resolved(scene.doc.dir, scene.target(occs[k])),
        ));
    }
    lemma_nothing_missing(scene, occs);
}

} // verus!
