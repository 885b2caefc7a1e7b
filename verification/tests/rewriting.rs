use fixlinks::context::Context;
use fixlinks::counts::Counts;
use fixlinks::document::Document;
use fixlinks::index::FilenameIndex;
use fixlinks::rewrite::{rewrite, Edit};
use fixlinks::text::Span;

fn edit(start: usize, end: usize, replacement: &str) -> Edit {
    Edit { span: Span { start, end }, replacement: replacement.to_string() }
}

fn strings(items: &[&str]) -> Vec<String> {
    items.iter().map(|s| s.to_string()).collect()
}

#[test]
fn rewrite_without_edits_copies_the_text() {
    assert_eq!(rewrite("unchanged ü text\n", &vec![]), "unchanged ü text\n");
    assert_eq!(rewrite("", &vec![]), "");
}

#[test]
fn rewrite_with_one_edit() {
    assert_eq!(rewrite("[see](old/b.md) end", &vec![edit(6, 14, "./sub/b.md")]), "[see](./sub/b.md) end");
}

#[test]
fn rewrite_with_many_edits_keeps_what_lies_between() {
    let text = "a [x](1.md) b [y](22.md) c [z](333.md) d";
    let edits = vec![edit(6, 10, "./p/1.md"), edit(18, 23, "../2.md"), edit(31, 37, "")];
    assert_eq!(rewrite(text, &edits), "a [x](./p/1.md) b [y](../2.md) c [z]() d");
}

#[test]
fn rewrite_at_both_ends_and_back_to_back() {
    assert_eq!(rewrite("abcdef", &vec![edit(0, 2, "X"), edit(2, 4, "YYY"), edit(4, 6, "")]), "XYYY");
    assert_eq!(rewrite("abc", &vec![edit(0, 0, ">"), edit(3, 3, "<")]), ">abc<");
    assert_eq!(rewrite("abc", &vec![edit(1, 1, "-"), edit(1, 2, "B")]), "a-Bc");
}

#[test]
fn rewrite_counts_bytes_not_characters() {
    assert_eq!(rewrite("é[ü](ö.md)é", &vec![edit(7, 12, "./ä/ö.md")]), "é[ü](./ä/ö.md)é");
}

#[test]
fn check_file_rewrites_only_the_targets() {
    let files = strings(&["docs/a.md", "docs/new/b.md", "docs/new/c.md", "docs/ok.md"]);
    let mut cx = Context::new(FilenameIndex::build(&files).unwrap());
    let doc = Document::new("docs/a.md").unwrap();
    let text = "# T\r\n[b](old/b.md#x) stays [ok](ok.md)\r\n\r\n[c ref]: was/c.md\r\n[w](http://b.md)\r\ntail";
    let report = cx.check_file(&doc, text, &strings(&["docs/ok.md"])).unwrap();
    assert_eq!(
        report.text.as_deref(),
        Some("# T\r\n[b](./new/b.md) stays [ok](ok.md)\r\n\r\n[c ref]: ./new/c.md\r\n[w](http://b.md)\r\ntail")
    );
    assert_eq!(cx.count, Counts { urls: 4, paths: 3, missing: 2, matches: 2, ambiguous: 0, ties: 0 });
}

#[test]
fn check_file_twice_changes_nothing_the_second_time() {
    let files = strings(&["docs/a.md", "docs/sub/b.md"]);
    let existing = strings(&["docs/./sub/b.md"]);
    let mut cx = Context::new(FilenameIndex::build(&files).unwrap());
    let doc = Document::new("docs/a.md").unwrap();
    let first = cx.check_file(&doc, "[see](old/b.md)\n", &existing).unwrap();
    let text = first.text.unwrap();
    assert_eq!(text, "[see](./sub/b.md)\n");
    let second = cx.check_file(&doc, &text, &existing).unwrap();
    assert_eq!(second.text, None);
    assert!(second.warnings.is_empty());
    assert_eq!(cx.count, Counts { urls: 2, paths: 2, missing: 1, matches: 1, ambiguous: 0, ties: 0 });
}

#[test]
fn check_file_lists_warnings_in_text_order() {
    let mut cx = Context::new(FilenameIndex::build(&strings(&["docs/a.md"])).unwrap());
    let doc = Document::new("docs/a.md").unwrap();
    let report = cx.check_file(&doc, "[a](one.md)\n\n[r]: two.md\n[b](three.md)", &vec![]).unwrap();
    let seen: Vec<(usize, &str)> = report.warnings.iter().map(|w| (w.line_no, w.target.as_str())).collect();
    assert_eq!(seen, vec![(1, "one.md"), (3, "two.md"), (4, "three.md")]);
    assert_eq!(report.text, None);
}
