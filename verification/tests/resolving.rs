use fixlinks::check::{probe_file, probe_paths, CheckError};
use fixlinks::context::Context;
use fixlinks::counts::Counts;
use fixlinks::document::Document;
use fixlinks::index::{FilenameIndex, IndexError};
use fixlinks::order::Occurrence;
use fixlinks::resolve::{format_route, is_present, starts_with, strip_fragment};
use fixlinks::text::Span;

fn strings(items: &[&str]) -> Vec<String> {
    items.iter().map(|s| s.to_string()).collect()
}

fn context(files: &[&str]) -> Context {
    Context::new(FilenameIndex::build(&strings(files)).unwrap())
}

fn counts(urls: usize, paths: usize, missing: usize, matches: usize, ambiguous: usize, ties: usize) -> Counts {
    Counts { urls, paths, missing, matches, ambiguous, ties }
}

#[test]
fn document_knows_its_directory() {
    let doc = Document::new("docs/guide/a.md").unwrap();
    assert_eq!(doc.path(), "docs/guide/a.md");
    assert_eq!(doc.dir(), "docs/guide");
    assert_eq!(Document::new("a.md").unwrap().dir(), "");
    assert_eq!(Document::new("/a.md").unwrap().dir(), "/");
}

#[test]
fn document_without_parent() {
    assert!(Document::new("").is_none());
    assert!(Document::new("/").is_none());
}

#[test]
fn index_of_no_files_is_empty() {
    let index = FilenameIndex::build(&vec![]).unwrap();
    assert!(index.entries().is_empty());
    assert!(index.get("a.md").is_none());
    assert!(FilenameIndex::new().entries().is_empty());
}

#[test]
fn index_lists_files_by_base_name_in_order() {
    let index = FilenameIndex::build(&strings(&["x/a.md", "b.md", "y/a.md", "z/c.md", "a.md"])).unwrap();
    assert_eq!(index.get("a.md"), Some(&strings(&["x/a.md", "y/a.md", "a.md"])));
    assert_eq!(index.get("b.md"), Some(&strings(&["b.md"])));
    assert_eq!(index.get("c.md"), Some(&strings(&["z/c.md"])));
    assert_eq!(index.get("x"), None);
    assert_eq!(index.get("A.md"), None);
    let names: Vec<&str> = index.entries().iter().map(|e| e.name.as_str()).collect();
    assert_eq!(names, vec!["a.md", "b.md", "c.md"]);
}

#[test]
fn index_reports_shared_names() {
    let index = FilenameIndex::build(&strings(&["x/a.md", "b.md", "y/a.md", "z/b.md", "c.md"])).unwrap();
    let shared: Vec<(&str, &Vec<String>)> =
        index.duplicates().iter().map(|e| (e.name.as_str(), &e.paths)).collect();
    assert_eq!(
        shared,
        vec![("a.md", &strings(&["x/a.md", "y/a.md"])), ("b.md", &strings(&["b.md", "z/b.md"]))]
    );
    assert!(FilenameIndex::build(&strings(&["a.md", "b.md"])).unwrap().duplicates().is_empty());
}

#[test]
fn index_fails_at_first_path_without_base_name() {
    let res = FilenameIndex::build(&strings(&["a.md", "x/..", "/", "b.md"]));
    assert_eq!(res.err(), Some(IndexError { file: 1 }));
    assert_eq!(FilenameIndex::build(&strings(&[""])).err(), Some(IndexError { file: 0 }));
}

#[test]
fn starts_with_compares_characters() {
    assert!(starts_with("http://x", "http:"));
    assert!(starts_with("http:", "http:"));
    assert!(!starts_with("http", "http:"));
    assert!(!starts_with("Http://x", "http:"));
    assert!(starts_with("anything", ""));
    assert!(starts_with("üb/er", "üb"));
    assert!(!starts_with("", "#"));
}

#[test]
fn strip_fragment_cuts_at_first_hash() {
    assert_eq!(strip_fragment("a.md#top"), "a.md");
    assert_eq!(strip_fragment("a.md"), "a.md");
    assert_eq!(strip_fragment("a#b#c"), "a");
    assert_eq!(strip_fragment("#only"), "");
    assert_eq!(strip_fragment(""), "");
    assert_eq!(strip_fragment("ü/é.md#ä"), "ü/é.md");
}

#[test]
fn format_route_marks_the_current_directory() {
    assert_eq!(format_route("b.md".to_string()), "./b.md");
    assert_eq!(format_route("sub/b.md".to_string()), "./sub/b.md");
    assert_eq!(format_route("../b.md".to_string()), "../b.md");
    assert_eq!(format_route("../../x/b.md".to_string()), "../../x/b.md");
    assert_eq!(format_route("..".to_string()), "./..");
    assert_eq!(format_route("..b.md".to_string()), "./..b.md");
    assert_eq!(format_route("/abs/b.md".to_string()), ".//abs/b.md");
    assert_eq!(format_route("".to_string()), "./");
}

#[test]
fn is_present_looks_for_the_exact_path() {
    let existing = strings(&["docs/a.md", "docs/./b.md"]);
    assert!(is_present(&existing, "docs/a.md"));
    assert!(is_present(&existing, "docs/./b.md"));
    assert!(!is_present(&existing, "docs/b.md"));
    assert!(!is_present(&vec![], "docs/a.md"));
}

#[test]
fn check_url_skips_web_addresses() {
    let mut cx = context(&["docs/a.md", "x/http:"]);
    let doc = Document::new("docs/a.md").unwrap();
    for target in ["http://example.org/a.md", "https://example.org", "http:", "#section", "#"] {
        let res = cx.check_url(&doc, 1, target, &vec![]);
        assert_eq!(res.replacement, None);
        assert!(res.warning.is_none());
    }
    assert_eq!(cx.count, counts(5, 0, 0, 0, 0, 0));
}

#[test]
fn check_url_takes_other_schemes_for_paths() {
    let mut cx = context(&["docs/a.md"]);
    let doc = Document::new("docs/a.md").unwrap();
    let res = cx.check_url(&doc, 3, "ftp://example.org/a.md", &vec![]);
    assert_eq!(res.replacement.as_deref(), Some("./a.md"));
    assert_eq!(cx.count, counts(1, 1, 1, 1, 0, 0));
}

#[test]
fn check_url_leaves_existing_paths() {
    let mut cx = context(&["docs/a.md", "docs/b.md", "other/b.md"]);
    let doc = Document::new("docs/a.md").unwrap();
    let res = cx.check_url(&doc, 1, "b.md", &strings(&["docs/b.md"]));
    assert_eq!(res.replacement, None);
    assert!(res.warning.is_none());
    let res = cx.check_url(&doc, 1, "b.md#part", &strings(&["docs/b.md"]));
    assert_eq!(res.replacement, None);
    assert_eq!(cx.count, counts(2, 2, 0, 0, 0, 0));
}

#[test]
fn check_url_warns_with_the_target_as_written() {
    let mut cx = context(&["docs/a.md"]);
    let doc = Document::new("docs/a.md").unwrap();
    let res = cx.check_url(&doc, 7, "gone/z.md#frag", &vec![]);
    assert_eq!(res.replacement, None);
    let w = res.warning.unwrap();
    assert_eq!((w.file.as_str(), w.line_no, w.target.as_str()), ("docs/a.md", 7, "gone/z.md#frag"));
    assert_eq!(cx.count, counts(1, 1, 1, 0, 0, 0));
}

#[test]
fn check_url_warns_where_the_path_has_no_base_name() {
    let mut cx = context(&["docs/a.md"]);
    let doc = Document::new("docs/a.md").unwrap();
    let res = cx.check_url(&doc, 2, "..", &vec![]);
    assert!(res.warning.is_some());
    assert_eq!(cx.count, counts(1, 1, 1, 0, 0, 0));
}

#[test]
fn check_url_repairs_and_drops_the_fragment() {
    let mut cx = context(&["docs/a.md", "docs/sub/b.md"]);
    let doc = Document::new("docs/a.md").unwrap();
    let res = cx.check_url(&doc, 1, "old/b.md#frag", &vec![]);
    assert_eq!(res.replacement.as_deref(), Some("./sub/b.md"));
    assert!(res.warning.is_none());
    assert_eq!(cx.count, counts(1, 1, 1, 1, 0, 0));
}

#[test]
fn check_url_keeps_climbing_routes_as_they_are() {
    let mut cx = context(&["docs/guide/a.md", "docs/b.md"]);
    let doc = Document::new("docs/guide/a.md").unwrap();
    let res = cx.check_url(&doc, 1, "b.md", &vec![]);
    assert_eq!(res.replacement.as_deref(), Some("../b.md"));
}

#[test]
fn check_url_counts_ambiguity_even_without_tie() {
    let mut cx = context(&["docs/a.md", "docs/x/c.md", "c.md"]);
    let doc = Document::new("docs/a.md").unwrap();
    let res = cx.check_url(&doc, 1, "c.md", &vec![]);
    assert_eq!(res.replacement.as_deref(), Some("./x/c.md"));
    assert_eq!(cx.count, counts(1, 1, 1, 1, 1, 0));
}

#[test]
fn check_url_without_comparable_candidate_is_silent() {
    let mut cx = context(&["/abs/docs/a.md", "rel/c.md", "other/c.md"]);
    let doc = Document::new("/abs/docs/a.md").unwrap();
    let res = cx.check_url(&doc, 1, "c.md", &vec![]);
    assert_eq!(res.replacement, None);
    assert!(res.warning.is_none());
    assert_eq!(cx.count, counts(1, 1, 1, 1, 1, 0));
}

#[test]
fn counts_start_at_zero() {
    assert_eq!(Counts::new(), counts(0, 0, 0, 0, 0, 0));
    assert_eq!(Counts::default(), Counts::new());
}

#[test]
fn counts_know_their_room() {
    assert!(Counts::new().can_grow_by(usize::MAX));
    assert!(counts(0, 0, 0, 0, 0, 1).can_grow_by(usize::MAX - 1));
    assert!(!counts(0, 0, 0, 0, 0, 1).can_grow_by(usize::MAX));
    assert!(!counts(usize::MAX, 0, 0, 0, 0, 0).can_grow_by(1));
    assert!(counts(usize::MAX, 0, 0, 0, 0, 0).can_grow_by(0));
}

#[test]
fn check_file_refuses_to_overflow_a_counter() {
    let mut cx = context(&["docs/a.md"]);
    cx.count.urls = usize::MAX - 1;
    let doc = Document::new("docs/a.md").unwrap();
    let res = cx.check_file(&doc, "[a](x.md) [b](y.md)", &vec![]);
    assert_eq!(res.err(), Some(CheckError::Overflow));
    assert_eq!(cx.count, counts(usize::MAX - 1, 0, 0, 0, 0, 0));
    let report = cx.check_file(&doc, "[a](x.md)", &vec![]).unwrap();
    assert_eq!(report.warnings.len(), 1);
    assert_eq!(cx.count, counts(usize::MAX, 1, 1, 0, 0, 0));
}

#[test]
fn check_occurrences_takes_the_occurrences_it_is_given() {
    let mut cx = context(&["docs/a.md", "docs/sub/b.md"]);
    let doc = Document::new("docs/a.md").unwrap();
    let text = "see b.md and b.md";
    let occs = vec![
        Occurrence { line_no: 1, span: Span { start: 4, end: 8 } },
        Occurrence { line_no: 1, span: Span { start: 13, end: 17 } },
    ];
    let report = cx.check_occurrences(&doc, text, &occs, &vec![]).unwrap();
    assert_eq!(report.text.as_deref(), Some("see ./sub/b.md and ./sub/b.md"));
    assert_eq!(cx.count, counts(2, 2, 2, 2, 0, 0));
}

#[test]
fn check_occurrences_refuses_descending_repairs() {
    let mut cx = context(&["docs/a.md", "docs/sub/b.md"]);
    let doc = Document::new("docs/a.md").unwrap();
    let occs = vec![
        Occurrence { line_no: 1, span: Span { start: 13, end: 17 } },
        Occurrence { line_no: 1, span: Span { start: 4, end: 8 } },
    ];
    let res = cx.check_occurrences(&doc, "see b.md and b.md", &occs, &vec![]);
    assert_eq!(res.err(), Some(CheckError::Overlap));
    assert_eq!(cx.count, counts(0, 0, 0, 0, 0, 0));
}

#[test]
fn probe_paths_lists_what_to_look_for() {
    let doc = Document::new("docs/a.md").unwrap();
    let text = "[a](b.md#x) [w](https://x.org) [f](#frag) [c](../c.md)\n[d]: sub/d.md\n";
    assert_eq!(probe_file(&doc, text).unwrap(), strings(&["docs/b.md", "docs/../c.md", "docs/sub/d.md"]));
    let occs = vec![Occurrence { line_no: 1, span: Span { start: 4, end: 10 } }];
    assert_eq!(probe_paths(&doc, text, &occs), strings(&["docs/b.md"]));
    assert_eq!(probe_paths(&doc, text, &vec![]), strings(&[]));
}

#[test]
fn probe_of_an_absolute_target_is_that_target() {
    let doc = Document::new("docs/a.md").unwrap();
    assert_eq!(probe_file(&doc, "[a](/etc/x.md)").unwrap(), strings(&["/etc/x.md"]));
}
