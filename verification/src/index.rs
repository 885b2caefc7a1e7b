//! The filename index: for each base name, the known files that bear it.

use vstd::prelude::*;
use vstd::string::*;
use crate::paths::{file_name, file_name_of};
use crate::text::{same_text, views};

verus! {

/// One base name and the known files that bear it, in the order they were
/// given.
#[derive(Debug)]
pub struct FilenameEntry {
    pub name: String,
    pub paths: Vec<String>,
}

/// The index of the known files by base name.
#[derive(Debug)]
pub struct FilenameIndex {
    entries: Vec<FilenameEntry>,
}

/// Why no index could be built.
#[derive(Clone, Copy, Debug, PartialEq, Eq)]
pub struct IndexError {
    /// The position of the first file whose path has no base name.
    pub file: usize,
}

/// Whether `file` bears the base name `name`.
pub open spec fn bears(file: Seq<char>, name: Seq<char>) -> bool {
    file_name_of(file) == Some(name)
}

/// The files that bear the base name `name`, in the order of `files`.
pub open spec fn filed_under(files: Seq<Seq<char>>, name: Seq<char>) -> Seq<Seq<char>> {
    files.filter(|f: Seq<char>| bears(f, name))
}

/// The index of `files`: every base name that occurs, with the files that
/// bear it.
pub open spec fn index_of(files: Seq<Seq<char>>) -> Map<Seq<char>, Seq<Seq<char>>> {
    Map::new(
        |name: Seq<char>| filed_under(files, name).len() > 0,
        |name: Seq<char>| filed_under(files, name),
    )
}

/// What one more file adds to the files under a name.
pub proof fn lemma_filed_under_push(files: Seq<Seq<char>>, file: Seq<char>, name: Seq<char>)
    ensures
        filed_under(files.push(file), name) == if bears(file, name) {
            filed_under(files, name).push(file)
        } else {
            filed_under(files, name)
        },
{
    reveal(Seq::filter);
    assert(files.push(file).drop_last() =~= files);
}

impl View for FilenameIndex {
    type V = Map<Seq<char>, Seq<Seq<char>>>;

    closed spec fn view(&self) -> Map<Seq<char>, Seq<Seq<char>>> {
        Map::new(
            |name: Seq<char>| self.position(name) is Some,
            |name: Seq<char>| views(self.entries[self.position(name)->0].paths@),
        )
    }
}

impl FilenameIndex {
    /// Where the entry of `name` stands.
    pub closed spec fn position(&self, name: Seq<char>) -> Option<int> {
        if exists|i: int| 0 <= i < self.entries.len() && (#[trigger] self.entries[i]).name@ == name {
            Some(choose|i: int| 0 <= i < self.entries.len() && (#[trigger] self.entries[i]).name@ == name)
        } else {
            None
        }
    }

    /// No name has two entries, and no entry is without a file.
    #[verifier::type_invariant]
    pub closed spec fn wf(&self) -> bool {
        &&& forall|i: int, j: int|
            0 <= i < j < self.entries.len() ==> (#[trigger] self.entries[i]).name@ != (
            #[trigger] self.entries[j]).name@
        &&& forall|i: int| 0 <= i < self.entries.len() ==> (#[trigger] self.entries[i]).paths.len() > 0
    }

    /// The names with two or more files, each with its files.
    pub open spec fn shared(&self) -> Map<Seq<char>, Seq<Seq<char>>> {
        self@.restrict(Set::new(|name: Seq<char>| self@.contains_key(name) && self@[name].len() > 1))
    }

    /// An index without files.
    pub fn new() -> (res: FilenameIndex)
        ensures
            res@ == index_of(Seq::empty()),
            res.wf(),
    {
        let res = FilenameIndex { entries: Vec::new() };
        proof {
            reveal(Seq::filter);
            assert(res@ =~= index_of(Seq::empty()));
        }
        res
    }

    /// Builds the index of `files`.
    ///
    /// Fails at the first file whose path has no base name.
    pub fn build(files: &Vec<String>) -> (res: Result<FilenameIndex, IndexError>)
        ensures
            match res {
                Ok(index) => {
                    &&& index@ == index_of(views(files@))
                    &&& index.wf()
                    &&& forall|i: int|
                        0 <= i < files.len() ==> file_name_of((#[trigger] files[i])@) is Some
                },
                Err(e) => {
                    &&& e.file < files.len()
                    &&& file_name_of(files[e.file as int]@) is None
                    &&& forall|i: int| 0 <= i < e.file ==> file_name_of((#[trigger] files[i])@) is Some
                },
            },
    {
        let ghost all = views(files@);
        let mut entries: Vec<FilenameEntry> = Vec::new();
        let mut i: usize = 0;
        proof {
            reveal(Seq::filter);
        }
        while i < files.len()
            invariant
                i <= files.len(),
                all == views(files@),
                forall|k: int| 0 <= k < i ==> file_name_of((#[trigger] files[k])@) is Some,
                forall|a: int, b: int|
                    0 <= a < b < entries.len() ==> (#[trigger] entries[a]).name@ != (
                    #[trigger] entries[b]).name@,
                forall|e: int|
                    0 <= e < entries.len() ==> views((#[trigger] entries[e]).paths@) == filed_under(
                        all.take(i as int),
                        entries[e].name@,
                    ) && entries[e].paths.len() > 0,
                forall|name: Seq<char>|
                    filed_under(all.take(i as int), name).len() > 0 ==> exists|e: int|
                        0 <= e < entries.len() && (#[trigger] entries[e]).name@ == name,
            decreases files.len() - i,
        {
            let file = &files[i];
            let ghost seen = all.take(i as int);
            let ghost old_entries = entries@;
            let ghost next = all.take(i + 1);
            proof {
                assert(next =~= seen.push(file@));
                assert forall|name: Seq<char>| #[trigger] filed_under(next, name) == if bears(
                    file@,
                    name,
                ) {
                    filed_under(seen, name).push(file@)
                } else {
                    filed_under(seen, name)
                } by {
                    lemma_filed_under_push(seen, file@, name);
                }
            }
            let name = match file_name(file.as_str()) {
                Some(name) => name,
                None => {
                    return Err(IndexError { file: i });
                },
            };
            let mut at: usize = 0;
            while at < entries.len() && !same_text(entries[at].name.as_str(), name.as_str())
                invariant
                    at <= entries.len(),
                    forall|k: int| 0 <= k < at ==> (#[trigger] entries[k]).name@ != name@,
                decreases entries.len() - at,
            {
                at = at + 1;
            }
            if at < entries.len() {
                let mut entry = entries.remove(at);
                let ghost before = entry.paths@;
                entry.paths.push(file.clone());
                proof {
                    assert(views(entry.paths@) =~= views(before).push(file@));
                }
                entries.insert(at, entry);
                proof {
                    assert forall|e: int| 0 <= e < entries.len() implies (#[trigger] entries[e]).name@
                        == old_entries[e].name@ by {}
                    assert forall|e: int| 0 <= e < entries.len() implies views(
                        (#[trigger] entries[e]).paths@,
                    ) == filed_under(next, entries[e].name@) && entries[e].paths.len()
                        > 0 by {
                        if e != at {
                            assert(entries[e] == old_entries[e]);
                            assert(old_entries[e].name@ != old_entries[at as int].name@);
                        }
                    }
                    assert forall|n: Seq<char>| filed_under(next, n).len() > 0 implies exists|
                        e: int,
                    |
                        0 <= e < entries.len() && (#[trigger] entries[e]).name@ == n by {
                        if bears(file@, n) {
                            assert(entries[at as int].name@ == n);
                        } else {
                            let e = choose|e: int|
                                0 <= e < old_entries.len() && (#[trigger] old_entries[e]).name@ == n;
                            assert(entries[e].name@ == n);
                        }
                    }
                }
            } else {
                let mut paths: Vec<String> = Vec::new();
                paths.push(file.clone());
                proof {
                    assert(views(paths@) =~= seq![file@]);
                    if filed_under(seen, name@).len() > 0 {
                        let e = choose|e: int|
                            0 <= e < old_entries.len() && (#[trigger] old_entries[e]).name@ == name@;
                        assert(false);
                    }
                    assert(filed_under(seen, name@) =~= Seq::empty());
                    assert(Seq::<Seq<char>>::empty().push(file@) =~= seq![file@]);
                }
                entries.push(FilenameEntry { name, paths });
                proof {
                    assert forall|e: int| 0 <= e < entries.len() implies views(
                        (#[trigger] entries[e]).paths@,
                    ) == filed_under(next, entries[e].name@) && entries[e].paths.len()
                        > 0 by {
                        if e < old_entries.len() {
                            assert(entries[e] == old_entries[e]);
                        }
                    }
                    assert forall|n: Seq<char>| filed_under(next, n).len() > 0 implies exists|
                        e: int,
                    |
                        0 <= e < entries.len() && (#[trigger] entries[e]).name@ == n by {
                        if bears(file@, n) {
                            assert(entries[entries.len() - 1].name@ == n);
                        } else {
                            let e = choose|e: int|
                                0 <= e < old_entries.len() && (#[trigger] old_entries[e]).name@ == n;
                            assert(entries[e].name@ == n);
                        }
                    }
                }
            }
            i = i + 1;
        }
        let index = FilenameIndex { entries };
        proof {
            assert(all.take(files.len() as int) =~= all);
            assert forall|name: Seq<char>| index@.contains_key(name) <==> index_of(all).contains_key(
                name,
            ) by {
                if index@.contains_key(name) {
                    let e = index.position(name)->0;
                    assert(views(index.entries[e].paths@).len() > 0);
                }
                if index_of(all).contains_key(name) {
                    let e = choose|e: int|
                        0 <= e < index.entries.len() && (#[trigger] index.entries[e]).name@ == name;
                    assert(index.position(name) is Some);
                }
            }
            assert(index@ =~= index_of(all));
        }
        Ok(index)
    }

    /// Where the entry of `name` stands, if there is one.
    fn find(&self, name: &str) -> (res: Option<usize>)
        ensures
            match res {
                Some(i) => i < self.entries.len() && self.entries[i as int].name@ == name@,
                None => forall|i: int|
                    0 <= i < self.entries.len() ==> (#[trigger] self.entries[i]).name@ != name@,
            },
    {
        let mut i: usize = 0;
        while i < self.entries.len()
            invariant
                i <= self.entries.len(),
                forall|k: int| 0 <= k < i ==> (#[trigger] self.entries[k]).name@ != name@,
            decreases self.entries.len() - i,
        {
            if same_text(self.entries[i].name.as_str(), name) {
                return Some(i);
            }
            i = i + 1;
        }
        None
    }

    /// The known files that bear the base name `name`.
    pub fn get(&self, name: &str) -> (res: Option<&Vec<String>>)
        ensures
            match res {
                Some(paths) => self@.contains_key(name@) && self@[name@] == views(paths@)
                    && paths.len() > 0,
                None => !self@.contains_key(name@),
            },
    {
        proof {
            use_type_invariant(self);
        }
        match self.find(name) {
            Some(i) => {
                assert(self.position(name@) == Some(i as int));
                Some(&self.entries[i].paths)
            },
            None => None,
        }
    }

    /// The entries of the base names that two or more files bear, each
    /// once.
    pub fn duplicates(&self) -> (res: Vec<&FilenameEntry>)
        ensures
            forall|i: int|
                0 <= i < res.len() ==> self.shared().contains_key((#[trigger] res[i]).name@)
                    && self.shared()[res[i].name@] == views(res[i].paths@),
            forall|name: Seq<char>|
                self.shared().contains_key(name) ==> exists|i: int|
                    0 <= i < res.len() && (#[trigger] res[i]).name@ == name,
            forall|i: int, j: int|
                0 <= i < j < res.len() ==> (#[trigger] res[i]).name@ != (#[trigger] res[j]).name@,
    {
        let entries = self.entries();
        let mut res: Vec<&FilenameEntry> = Vec::new();
        let mut k: usize = 0;
        while k < entries.len()
            invariant
                k <= entries.len(),
                forall|i: int|
                    0 <= i < entries.len() ==> self@.contains_key((#[trigger] entries[i]).name@)
                        && self@[entries[i].name@] == views(entries[i].paths@),
                forall|i: int, j: int|
                    0 <= i < j < entries.len() ==> (#[trigger] entries[i]).name@ != (
                    #[trigger] entries[j]).name@,
                forall|i: int|
                    0 <= i < res.len() ==> (#[trigger] res[i]).paths.len() > 1 && exists|e: int|
                        0 <= e < k && entries[e] == *res[i],
                forall|e: int|
                    0 <= e < k && (#[trigger] entries[e]).paths.len() > 1 ==> exists|i: int|
                        0 <= i < res.len() && *(#[trigger] res[i]) == entries[e],
                forall|i: int, j: int|
                    0 <= i < j < res.len() ==> (#[trigger] res[i]).name@ != (#[trigger] res[j]).name@,
            decreases entries.len() - k,
        {
            let entry = &entries[k];
            if entry.paths.len() > 1 {
                let ghost before = res@;
                proof {
                    assert forall|i: int| 0 <= i < before.len() implies (#[trigger] before[i]).name@
                        != entry.name@ by {
                        let e = choose|e: int| 0 <= e < k && entries[e] == *before[i];
                        assert(entries[e].name@ != entries[k as int].name@);
                    }
                }
                res.push(entry);
                proof {
                    assert forall|e: int|
                        0 <= e < k + 1 && (#[trigger] entries[e]).paths.len() > 1 implies exists|
                        i: int,
                    |
                        0 <= i < res.len() && *(#[trigger] res[i]) == entries[e] by {
                        if e < k {
                            let i = choose|i: int|
                                0 <= i < before.len() && *(#[trigger] before[i]) == entries[e];
                            assert(*res[i] == entries[e]);
                        } else {
                            assert(*res[res.len() - 1] == entries[e]);
                        }
                    }
                    assert forall|i: int| 0 <= i < res.len() implies (#[trigger] res[i]).paths.len()
                        > 1 && exists|e: int| 0 <= e < k + 1 && entries[e] == *res[i] by {
                        if i < before.len() {
                            let e = choose|e: int| 0 <= e < k && entries[e] == *before[i];
                            assert(entries[e] == *res[i]);
                        } else {
                            assert(entries[k as int] == *res[i]);
                        }
                    }
                }
            }
            k = k + 1;
        }
        proof {
            assert forall|i: int| 0 <= i < res.len() implies self.shared().contains_key(
                (#[trigger] res[i]).name@,
            ) && self.shared()[res[i].name@] == views(res[i].paths@) by {
                let e = choose|e: int| 0 <= e < k && entries[e] == *res[i];
                assert(self@[entries[e].name@] == views(entries[e].paths@));
            }
            assert forall|name: Seq<char>| self.shared().contains_key(name) implies exists|i: int|
                0 <= i < res.len() && (#[trigger] res[i]).name@ == name by {
                let e = choose|e: int| 0 <= e < entries.len() && (#[trigger] entries[e]).name@ == name;
                assert(self@[entries[e].name@] == views(entries[e].paths@));
                let i = choose|i: int| 0 <= i < res.len() && *(#[trigger] res[i]) == entries[e];
                assert(res[i].name@ == name);
            }
        }
        res
    }

    /// The entries of the index, one for each base name.
    pub fn entries(&self) -> (res: &Vec<FilenameEntry>)
        ensures
            forall|i: int|
                0 <= i < res.len() ==> self@.contains_key((#[trigger] res[i]).name@)
                    && self@[res[i].name@] == views(res[i].paths@),
            forall|name: Seq<char>|
                self@.contains_key(name) ==> exists|i: int|
                    0 <= i < res.len() && (#[trigger] res[i]).name@ == name,
            forall|i: int, j: int|
                0 <= i < j < res.len() ==> (#[trigger] res[i]).name@ != (#[trigger] res[j]).name@,
    {
        proof {
            use_type_invariant(self);
            assert forall|i: int| 0 <= i < self.entries.len() implies self@.contains_key(
                (#[trigger] self.entries[i]).name@,
            ) && self@[self.entries[i].name@] == views(self.entries[i].paths@) by {
                assert(self.position(self.entries[i].name@) == Some(i));
            }
        }
        &self.entries
    }
}

} // verus!
