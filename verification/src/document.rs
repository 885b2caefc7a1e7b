//! The path of a document, together with the directory that holds it.

use vstd::prelude::*;
use vstd::string::*;
use crate::paths::{parent, parent_of};

verus! {

/// A document that can hold references: its path, and the directory that
/// relative references in it start from.
#[derive(Debug)]
pub struct Document {
    path: String,
    dir: String,
}

/// What the contracts say of a document.
pub struct DocumentView {
    /// The document's path.
    pub path: Seq<char>,
    /// The directory that holds the document.
    pub dir: Seq<char>,
}

impl View for Document {
    type V = DocumentView;

    closed spec fn view(&self) -> DocumentView {
        DocumentView { path: self.path@, dir: self.dir@ }
    }
}

impl Document {
    /// The directory is the parent of the path.
    #[verifier::type_invariant]
    pub closed spec fn wf(&self) -> bool {
        parent_of(self.path@) == Some(self.dir@)
    }

    /// The document at `path`; `None` where the path has no parent
    /// directory.
    pub fn new(path: &str) -> (res: Option<Document>)
        ensures
            match res {
                Some(doc) => doc@.path == path@ && parent_of(path@) == Some(doc@.dir) && doc.wf(),
                None => parent_of(path@) is None,
            },
    {
        match parent(path) {
            Some(dir) => Some(Document { path: path.to_owned(), dir }),
            None => None,
        }
    }

    /// The document's path.
    pub fn path(&self) -> (res: &str)
        ensures
            res@ == self@.path,
    {
        self.path.as_str()
    }

    /// The directory that holds the document.
    pub fn dir(&self) -> (res: &str)
        ensures
            res@ == self@.dir,
            parent_of(self@.path) == Some(self@.dir),
    {
        proof {
            use_type_invariant(self);
        }
        self.dir.as_str()
    }
}

} // verus!
