//! The reference resolver: what becomes of one reference target.
//!
//! A web address or a bare fragment is left alone. Any other target is a
//! path: its fragment is cut off, it is resolved against the directory of the
//! referencing document, and where it leads to no file the known files of the
//! same base name are ranked to find a replacement.

use vstd::prelude::*;
use vstd::string::*;
use crate::context::Context;
use crate::counts::Counts;
use crate::document::Document;
use crate::paths::{file_name, file_name_of, join, joined, opt_view};
use crate::rank::{ranked, tied};
use crate::text::{same_text, views};

verus! {

/// What becomes of a reference target.
#[derive(Clone, Copy, Debug, PartialEq, Eq)]
pub enum Fate {
    /// A web address or a bare fragment: no path.
    Skipped,
    /// The path leads to a file.
    Present,
    /// The path leads nowhere, and no known file bears its base name.
    Unknown,
    /// The path leads nowhere, and no relative path leads to any of the
    /// known files of its base name.
    Unranked,
    /// The path leads nowhere, and a known file of its base name takes its
    /// place.
    Repaired,
}

/// A reference that could not be repaired because no known file bears the
/// target's base name.
#[derive(Debug)]
pub struct Warning {
    /// The path of the referencing document.
    pub file: String,
    /// The line of the reference, counted from 1.
    pub line_no: usize,
    /// The target as it stands in the document.
    pub target: String,
}

/// A warning as the contracts see it.
pub struct Notice {
    pub file: Seq<char>,
    pub line_no: usize,
    pub target: Seq<char>,
}

impl View for Warning {
    type V = Notice;

    open spec fn view(&self) -> Notice {
        Notice { file: self.file@, line_no: self.line_no, target: self.target@ }
    }
}

/// What the resolver decided on one target.
#[derive(Debug)]
pub struct Resolution {
    /// The text that takes the target's place, where the target is repaired.
    pub replacement: Option<String>,
    /// The warning to show, where no known file bears the base name.
    pub warning: Option<Warning>,
}

/// `text` begins with `prefix`.
pub open spec fn has_prefix(text: Seq<char>, prefix: Seq<char>) -> bool {
    prefix.len() <= text.len() && text.subrange(0, prefix.len() as int) == prefix
}

/// The target is a web address or a bare fragment.
pub open spec fn out_of_scope(target: Seq<char>) -> bool {
    has_prefix(target, "http:"@) || has_prefix(target, "https:"@) || has_prefix(target, "#"@)
}

/// The offset of the first `#` at or after `from`, or the length of the
/// target where there is none.
pub open spec fn fragment_at(target: Seq<char>, from: int) -> int
    decreases target.len() - from,
{
    if from < 0 || from >= target.len() {
        target.len() as int
    } else if target[from] == '#' {
        from
    } else {
        fragment_at(target, from + 1)
    }
}

/// The target without its fragment.
pub open spec fn path_part(target: Seq<char>) -> Seq<char> {
    target.subrange(0, fragment_at(target, 0))
}

/// The path that the target names, seen from the directory `dir`.
pub open spec fn resolved(dir: Seq<char>, target: Seq<char>) -> Seq<char> {
    joined(dir, path_part(target))
}

/// The known files that bear the base name of the target's path.
pub open spec fn candidates(
    index: Map<Seq<char>, Seq<Seq<char>>>,
    dir: Seq<char>,
    target: Seq<char>,
) -> Option<Seq<Seq<char>>> {
    match file_name_of(resolved(dir, target)) {
        Some(name) if index.contains_key(name) => Some(index[name]),
        _ => None,
    }
}

/// What becomes of `target` in a document of the directory `dir`, given the
/// known files and the paths that exist.
pub open spec fn fate(
    index: Map<Seq<char>, Seq<Seq<char>>>,
    dir: Seq<char>,
    existing: Seq<Seq<char>>,
    target: Seq<char>,
) -> Fate {
    if out_of_scope(target) {
        Fate::Skipped
    } else if existing.contains(resolved(dir, target)) {
        Fate::Present
    } else {
        match candidates(index, dir, target) {
            None => Fate::Unknown,
            Some(names) => if ranked(dir, names) is Some {
                Fate::Repaired
            } else {
                Fate::Unranked
            },
        }
    }
}

/// A relative path as it is written into a document: as it is where it
/// begins with `../`, behind `./` otherwise.
pub open spec fn formatted(route: Seq<char>) -> Seq<char> {
    if has_prefix(route, "../"@) {
        route
    } else {
        "./"@ + route
    }
}

/// The text that takes the target's place, where the target is repaired.
pub open spec fn replacement(
    index: Map<Seq<char>, Seq<Seq<char>>>,
    dir: Seq<char>,
    existing: Seq<Seq<char>>,
    target: Seq<char>,
) -> Option<Seq<char>> {
    if fate(index, dir, existing, target) == Fate::Repaired {
        Some(formatted(ranked(dir, candidates(index, dir, target)->0)->0))
    } else {
        None
    }
}

/// What one target adds to the statistics.
pub open spec fn tally(
    index: Map<Seq<char>, Seq<Seq<char>>>,
    dir: Seq<char>,
    existing: Seq<Seq<char>>,
    target: Seq<char>,
) -> Counts {
    let fate = fate(index, dir, existing, target);
    let missing = fate == Fate::Unknown || fate == Fate::Unranked || fate == Fate::Repaired;
    let matched = fate == Fate::Unranked || fate == Fate::Repaired;
    let names = candidates(index, dir, target);
    Counts {
        urls: 1,
        paths: if fate != Fate::Skipped { 1 } else { 0 },
        missing: if missing { 1 } else { 0 },
        matches: if matched { 1 } else { 0 },
        ambiguous: if matched && names->0.len() > 1 { 1 } else { 0 },
        ties: if fate == Fate::Repaired && tied(dir, names->0) { 1 } else { 0 },
    }
}

/// Whether `text` begins with `prefix`.
pub fn starts_with(text: &str, prefix: &str) -> (res: bool)
    ensures
        res == has_prefix(text@, prefix@),
{
    let n = prefix.unicode_len();
    if text.unicode_len() < n {
        return false;
    }
    let mut i: usize = 0;
    while i < n
        invariant
            n == prefix@.len(),
            n <= text@.len(),
            i <= n,
            forall|k: int| 0 <= k < i ==> text@[k] == prefix@[k],
        decreases n - i,
    {
        if text.get_char(i) != prefix.get_char(i) {
            assert(text@.subrange(0, n as int)[i as int] != prefix@[i as int]);
            return false;
        }
        i = i + 1;
    }
    assert(text@.subrange(0, n as int) =~= prefix@);
    true
}

/// The target without its fragment: what stands before the first `#`.
pub fn strip_fragment(target: &str) -> (res: &str)
    ensures
        res@ == path_part(target@),
{
    let n = target.unicode_len();
    let mut i: usize = 0;
    while i < n && target.get_char(i) != '#'
        invariant
            n == target@.len(),
            i <= n,
            fragment_at(target@, i as int) == fragment_at(target@, 0),
        decreases n - i,
    {
        i = i + 1;
    }
    target.substring_char(0, i)
}

/// Whether `path` is among the paths that exist.
pub fn is_present(existing: &Vec<String>, path: &str) -> (res: bool)
    ensures
        res == views(existing@).contains(path@),
{
    let mut i: usize = 0;
    while i < existing.len()
        invariant
            i <= existing.len(),
            forall|k: int| 0 <= k < i ==> views(existing@)[k] != path@,
        decreases existing.len() - i,
    {
        if same_text(existing[i].as_str(), path) {
            assert(views(existing@)[i as int] == path@);
            return true;
        }
        i = i + 1;
    }
    false
}

/// Writes a relative path the way it is put into a document.
pub fn format_route(route: String) -> (res: String)
    ensures
        res@ == formatted(route@),
{
    if starts_with(route.as_str(), "../") {
        route
    } else {
        let mut res = String::from_str("./");
        res.append(route.as_str());
        res
    }
}

impl Context {
    /// Decides what becomes of the reference target `path`, which stands on
    /// line `line_no` of `file`. `existing` lists the paths that lead to a
    /// file.
    ///
    /// The target is counted, and so is each stage that it reaches. A
    /// replacement is given exactly where the target is a path that leads
    /// nowhere and a known file of the same base name can be reached by a
    /// relative path; a warning is given exactly where the path leads
    /// nowhere and no known file bears its base name.
    pub fn check_url(
        &mut self,
        file: &Document,
        line_no: usize,
        path: &str,
        existing: &Vec<String>,
    ) -> (res: Resolution)
        requires
            old(self).count.has_room(1),
        ensures
            final(self).filenames == old(self).filenames,
            final(self).count == old(self).count.plus(
                tally(old(self).filenames@, file@.dir, views(existing@), path@),
            ),
            opt_view(res.replacement) == replacement(
                old(self).filenames@,
                file@.dir,
                views(existing@),
                path@,
            ),
            match res.warning {
                Some(w) => {
                    &&& fate(old(self).filenames@, file@.dir, views(existing@), path@)
                        == Fate::Unknown
                    &&& w@ == (Notice { file: file@.path, line_no, target: path@ })
                },
                None => fate(old(self).filenames@, file@.dir, views(existing@), path@)
                    != Fate::Unknown,
            },
    {
        self.count.urls = self.count.urls + 1;
        if starts_with(path, "http:") || starts_with(path, "https:") || starts_with(path, "#") {
            return Resolution { replacement: None, warning: None };
        }
        let stripped = strip_fragment(path);
        self.count.paths = self.count.paths + 1;
        let target = join(file.dir(), stripped);
        if is_present(existing, target.as_str()) {
            return Resolution { replacement: None, warning: None };
        }
        self.count.missing = self.count.missing + 1;
        let names = match file_name(target.as_str()) {
            Some(name) => self.filenames.get(name.as_str()),
            None => None,
        };
        match names {
            Some(names) => {
                self.count.matches = self.count.matches + 1;
                if names.len() > 1 {
                    self.count.ambiguous = self.count.ambiguous + 1;
                }
                match Context::rank_names(file, names, &mut self.count) {
                    Some(route) => Resolution {
                        replacement: Some(format_route(route)),
                        warning: None,
                    },
                    None => Resolution { replacement: None, warning: None },
                }
            },
            None => Resolution {
                replacement: None,
                warning: Some(
                    Warning { file: file.path().to_owned(), line_no, target: path.to_owned() },
                ),
            },
        }
    }
}

/// A target that leads to a file is never replaced, and it counts neither as
/// missing nor as anything that follows from that.
pub proof fn law_present_not_replaced(
    index: Map<Seq<char>, Seq<Seq<char>>>,
    dir: Seq<char>,
    existing: Seq<Seq<char>>,
    target: Seq<char>,
)
    requires
        existing.contains(resolved(dir, target)),
    ensures
        replacement(index, dir, existing, target) is None,
        fate(index, dir, existing, target) == Fate::Skipped || fate(index, dir, existing, target)
            == Fate::Present,
        tally(index, dir, existing, target).missing == 0,
        tally(index, dir, existing, target).matches == 0,
        tally(index, dir, existing, target).ambiguous == 0,
        tally(index, dir, existing, target).ties == 0,
{
}

} // verus!
