//! Matching a line against a reference pattern.
//!
//! The patterns are regular expressions, compiled and run by the `regex`
//! crate. What the engine finds is not restated here: it is given a name,
//! and the scanner's contracts are stated over that name.

use vstd::prelude::*;
use vstd::string::*;
use vstd::utf8::*;
use crate::text::Span;

verus! {

/// A reference definition on a line of its own: a bracketed label, a colon
/// and a blank, then the target up to the end of the line.
pub const LINKREF_PATTERN: &'static str = "^\\[(.*?)\\]: (.*)";

/// An inline reference: a bracketed label directly followed by the target in
/// round brackets.
pub const INLINE_PATTERN: &'static str = "\\[([^\\[\\]]*)\\]\\((.*?)\\)";

/// What one match of a reference pattern captured: where the label lies and
/// where the target lies, as byte offsets into the text that was searched.
#[derive(Clone, Copy, Debug, PartialEq, Eq)]
pub struct Groups {
    /// The first capture group, where it took part in the match.
    pub label: Option<Span>,
    /// The second capture group, where it took part in the match.
    pub target: Option<Span>,
}

impl Groups {
    /// Both captured spans lie in `text`, between characters.
    pub open spec fn on_boundaries(self, text: Seq<u8>) -> bool {
        &&& self.label matches Some(label) ==> label.on_boundaries(text)
        &&& self.target matches Some(target) ==> target.on_boundaries(text)
    }
}

/// The error with which `regex::Regex::new` refuses a pattern. Nothing is
/// read from it.
#[verifier::external_type_specification]
#[verifier::external_body]
pub struct ExRegexError(regex::Error);

/// The successive non-overlapping matches of `pattern` in `haystack`, as
/// `regex::Regex::captures_iter` yields them, each with its first two capture
/// groups; `None` where `regex::Regex::new` refuses the pattern.
pub uninterp spec fn captures_of(pattern: Seq<char>, haystack: Seq<char>) -> Option<Seq<Groups>>;

/// Compiles `pattern` with `regex::Regex::new` and collects what
/// `regex::Regex::captures_iter` yields on `haystack`. The pattern is
/// compiled anew at each call.
///
/// The contract names the result. Of the offsets it claims what the
/// documentation of `regex::Match` guarantees: a match begins no later than
/// it ends, both offsets can slice the haystack, and both fall on character
/// boundaries.
#[verifier::external_body]
pub(crate) fn captures(pattern: &str, haystack: &str) -> (res: Result<Vec<Groups>, regex::Error>)
    ensures
        match res {
            Ok(found) => captures_of(pattern@, haystack@) == Some(found@),
            Err(_) => captures_of(pattern@, haystack@) is None,
        },
        res matches Ok(found) ==> forall|k: int|
            0 <= k < found.len() ==> (#[trigger] found[k]).on_boundaries(haystack.spec_bytes()),
{
    let re = regex::Regex::new(pattern)?;
    Ok(re.captures_iter(haystack).map(|c| Groups {
        label: c.get(1).map(|m| Span { start: m.start(), end: m.end() }),
        target: c.get(2).map(|m| Span { start: m.start(), end: m.end() }),
    }).collect())
}

} // verus!
