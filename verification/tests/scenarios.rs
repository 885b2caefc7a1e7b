use fixlinks::check::CheckError;
use fixlinks::context::Context;
use fixlinks::counts::Counts;
use fixlinks::document::Document;
use fixlinks::index::FilenameIndex;

fn strings(items: &[&str]) -> Vec<String> {
    items.iter().map(|s| s.to_string()).collect()
}

fn context(files: &[&str]) -> Context {
    Context::new(FilenameIndex::build(&strings(files)).unwrap())
}

fn counts(urls: usize, paths: usize, missing: usize, matches: usize, ambiguous: usize, ties: usize) -> Counts {
    Counts { urls, paths, missing, matches, ambiguous, ties }
}

#[test]
fn missing_file_without_namesake_warns_and_leaves_text() {
    let mut cx = context(&["docs/a.md"]);
    let doc = Document::new("docs/a.md").unwrap();
    let report = cx.check_file(&doc, "[see](missing.md)", &strings(&["docs/a.md"])).unwrap();
    assert_eq!(report.text, None);
    assert_eq!(report.warnings.len(), 1);
    assert_eq!(report.warnings[0].file, "docs/a.md");
    assert_eq!(report.warnings[0].line_no, 1);
    assert_eq!(report.warnings[0].target, "missing.md");
    assert_eq!(cx.count, counts(1, 1, 1, 0, 0, 0));
}

#[test]
fn moved_file_is_found_by_name() {
    let mut cx = context(&["docs/a.md", "docs/sub/b.md"]);
    let doc = Document::new("docs/a.md").unwrap();
    let existing = strings(&["docs/a.md", "docs/sub/b.md"]);
    let report = cx.check_file(&doc, "[see](old/b.md)", &existing).unwrap();
    assert_eq!(report.text.as_deref(), Some("[see](./sub/b.md)"));
    assert!(report.warnings.is_empty());
    assert_eq!(cx.count, counts(1, 1, 1, 1, 0, 0));
}

#[test]
fn equal_distance_takes_first_and_counts_tie() {
    let mut cx = context(&["docs/a.md", "docs/x/c.md", "docs/y/c.md"]);
    let doc = Document::new("docs/a.md").unwrap();
    let report = cx.check_file(&doc, "go to [c](c.md) now", &strings(&[])).unwrap();
    assert_eq!(report.text.as_deref(), Some("go to [c](./x/c.md) now"));
    assert_eq!(cx.count, counts(1, 1, 1, 1, 1, 1));
}

#[test]
fn descendant_beats_climb() {
    let mut cx = context(&["x.md", "a/b/sub/x.md", "a/b/doc.md"]);
    let doc = Document::new("a/b/doc.md").unwrap();
    let report = cx.check_file(&doc, "[x](gone/x.md)", &strings(&[])).unwrap();
    assert_eq!(report.text.as_deref(), Some("[x](./sub/x.md)"));
    assert_eq!(cx.count, counts(1, 1, 1, 1, 1, 0));
}

#[test]
fn existing_target_is_left_alone() {
    let mut cx = context(&["docs/a.md", "docs/b.md"]);
    let doc = Document::new("docs/a.md").unwrap();
    let report = cx.check_file(&doc, "[b](b.md#top)\n", &strings(&["docs/b.md"])).unwrap();
    assert_eq!(report.text, None);
    assert_eq!(cx.count, counts(1, 1, 0, 0, 0, 0));
}

#[test]
fn web_addresses_and_fragments_are_only_seen() {
    let mut cx = context(&["docs/a.md"]);
    let doc = Document::new("docs/a.md").unwrap();
    let text = "[a](http://x.org/a.md) [b](https://x.org) [c](#here)\n[d]: https://y.org\n";
    let report = cx.check_file(&doc, text, &strings(&[])).unwrap();
    assert_eq!(report.text, None);
    assert!(report.warnings.is_empty());
    assert_eq!(cx.count, counts(4, 0, 0, 0, 0, 0));
}

#[test]
fn overlapping_repairs_are_refused() {
    let mut cx = context(&["docs/a.md", "docs/sub/c.md", "docs/sub/[b](c.md)"]);
    let doc = Document::new("docs/a.md").unwrap();
    let res = cx.check_file(&doc, "[a]: [b](c.md)", &strings(&[]));
    assert_eq!(res.err(), Some(CheckError::Overlap));
    assert_eq!(cx.count, counts(0, 0, 0, 0, 0, 0));
}
