use fixlinks::lines::lines;
use fixlinks::matcher::{Groups, INLINE_PATTERN, LINKREF_PATTERN};
use fixlinks::order::{place, Occurrence};
use fixlinks::scan::{defined, find_hits, gather, same_bytes, scan, Hit};
use fixlinks::text::{bytes_equal, same_text, slice, Span};

fn span(start: usize, end: usize) -> Span {
    Span { start, end }
}

fn occ(line_no: usize, start: usize, end: usize) -> Occurrence {
    Occurrence { line_no, span: span(start, end) }
}

fn targets(text: &str) -> Vec<(usize, &str)> {
    scan(text).unwrap().iter().map(|o| (o.line_no, &text[o.span.start..o.span.end])).collect()
}

#[test]
fn lines_of_empty_text() {
    assert_eq!(lines(""), vec![]);
}

#[test]
fn lines_end_at_line_feeds() {
    assert_eq!(lines("ab\ncd"), vec![span(0, 2), span(3, 5)]);
    assert_eq!(lines("ab\ncd\n"), vec![span(0, 2), span(3, 5)]);
    assert_eq!(lines("\n\nx"), vec![span(0, 0), span(1, 1), span(2, 3)]);
}

#[test]
fn lines_drop_carriage_return_before_line_feed_only() {
    assert_eq!(lines("ab\r\ncd\r"), vec![span(0, 2), span(4, 7)]);
    assert_eq!(lines("\r\n"), vec![span(0, 0)]);
    assert_eq!(lines("a\rb\n"), vec![span(0, 3)]);
}

#[test]
fn lines_agree_with_std_on_samples() {
    for text in ["", "a", "a\n", "a\n\nb", "a\r\nb\r\n", "\n", "\r", "x\r\r\ny", "é\nü\r\n", "a\n\r\nb"] {
        let ours: Vec<&str> = lines(text).iter().map(|l| &text[l.start..l.end]).collect();
        let std: Vec<&str> = text.lines().collect();
        assert_eq!(ours, std, "{:?}", text);
    }
}

#[test]
fn slice_takes_the_span() {
    assert_eq!(slice("héllo wörld", span(0, 6)), "héllo");
    assert_eq!(slice("héllo wörld", span(7, 13)), "wörld");
    assert_eq!(slice("abc", span(1, 1)), "");
}

#[test]
fn text_comparisons() {
    assert!(same_text("a/b.md", "a/b.md"));
    assert!(!same_text("a/b.md", "a/B.md"));
    assert!(!same_text("a", "ab"));
    assert!(bytes_equal(b"", b""));
    assert!(!bytes_equal(b"ab", b"ac"));
    assert!(same_bytes(b"xabyab", span(1, 3), span(4, 6)));
    assert!(!same_bytes(b"xabyab", span(1, 3), span(3, 5)));
    assert!(!same_bytes(b"xabyab", span(1, 3), span(4, 5)));
    assert!(same_bytes(b"xabyab", span(2, 2), span(5, 5)));
}

#[test]
fn defined_compares_exact_bytes() {
    let text = b"[Label]: x [a](Label) [b](label)";
    let labels = vec![span(1, 6)];
    assert!(defined(text, &labels, span(15, 20)));
    assert!(!defined(text, &labels, span(26, 31)));
    assert!(!defined(text, &vec![], span(15, 20)));
}

#[test]
fn find_hits_gives_document_offsets() {
    let text = "intro\n[see](a.md) and [too](b.md)\n";
    let hits = find_hits(INLINE_PATTERN, text, &lines(text)).unwrap();
    assert_eq!(
        hits,
        vec![
            Hit { line_no: 2, label: Some(span(7, 10)), target: Some(span(12, 16)) },
            Hit { line_no: 2, label: Some(span(23, 26)), target: Some(span(28, 32)) },
        ]
    );
    assert_eq!(&text[12..16], "a.md");
    assert_eq!(&text[28..32], "b.md");
}

#[test]
fn find_hits_of_definitions() {
    let text = "x\r\n[ref]: some/where.md\r\n [no]: indented\n";
    let hits = find_hits(LINKREF_PATTERN, text, &lines(text)).unwrap();
    assert_eq!(hits, vec![Hit { line_no: 2, label: Some(span(4, 7)), target: Some(span(10, 23)) }]);
    assert_eq!(&text[10..23], "some/where.md");
}

#[test]
fn find_hits_refuses_a_broken_pattern() {
    assert!(find_hits("(", "abc", &lines("abc")).is_err());
    assert!(find_hits("(", "", &lines("")).is_ok());
}

#[test]
fn groups_are_plain_values() {
    let g = Groups { label: None, target: Some(span(1, 2)) };
    assert_eq!(g, g.clone());
}

#[test]
fn place_keeps_ascending_order_and_arrival_order_among_equals() {
    let mut found = vec![];
    place(&mut found, occ(1, 5, 6));
    place(&mut found, occ(2, 1, 2));
    place(&mut found, occ(3, 5, 9));
    place(&mut found, occ(4, 3, 4));
    place(&mut found, occ(5, 9, 9));
    assert_eq!(found, vec![occ(2, 1, 2), occ(4, 3, 4), occ(1, 5, 6), occ(3, 5, 9), occ(5, 9, 9)]);
}

#[test]
fn gather_orders_both_passes_by_offset() {
    let text = "[a](x.md)\n[r]: y.md\n[b](z.md)\n";
    let linkrefs = vec![Hit { line_no: 2, label: Some(span(11, 12)), target: Some(span(15, 19)) }];
    let inlines = vec![
        Hit { line_no: 1, label: Some(span(1, 2)), target: Some(span(4, 8)) },
        Hit { line_no: 3, label: Some(span(21, 22)), target: Some(span(24, 28)) },
    ];
    assert_eq!(gather(text, &linkrefs, &inlines), vec![occ(1, 4, 8), occ(2, 15, 19), occ(3, 24, 28)]);
}

#[test]
fn gather_passes_over_hits_without_target() {
    let text = "abcdef";
    let linkrefs = vec![Hit { line_no: 1, label: Some(span(0, 1)), target: None }];
    let inlines = vec![
        Hit { line_no: 1, label: None, target: None },
        Hit { line_no: 1, label: None, target: Some(span(0, 1)) },
        Hit { line_no: 1, label: None, target: Some(span(1, 2)) },
    ];
    assert_eq!(gather(text, &linkrefs, &inlines), vec![occ(1, 1, 2)]);
}

#[test]
fn scan_finds_definitions_and_inline_references() {
    let text = "# Title\n\nSee [one](a/b.md) and [two](c.md#frag).\n\n[ref]: ../d.md\n";
    assert_eq!(targets(text), vec![(3, "a/b.md"), (3, "c.md#frag"), (5, "../d.md")]);
}

#[test]
fn scan_skips_inline_target_that_is_a_defined_label() {
    let text = "[target]: real.md\nUse [it](target) or [other](elsewhere.md).\n";
    assert_eq!(targets(text), vec![(1, "real.md"), (2, "elsewhere.md")]);
}

#[test]
fn scan_compares_labels_case_sensitively() {
    let text = "[Target]: real.md\nUse [it](target) and [it](Target).\n";
    assert_eq!(targets(text), vec![(1, "real.md"), (2, "target")]);
}

#[test]
fn scan_knows_labels_defined_further_down() {
    let text = "Use [it](later).\n[later]: real.md\n";
    assert_eq!(targets(text), vec![(2, "real.md")]);
}

#[test]
fn scan_counts_offsets_in_bytes_across_lines() {
    let text = "äöü [x](é.md)\r\nzwei [y](ü/ö.md) [y](ü/ö.md)\n";
    let occs = scan(text).unwrap();
    assert_eq!(occs.len(), 3);
    assert_eq!(occs[0], occ(1, 11, 16));
    assert_eq!(&text[occs[1].span.start..occs[1].span.end], "ü/ö.md");
    assert_eq!(&text[occs[2].span.start..occs[2].span.end], "ü/ö.md");
    assert_eq!(occs[2].span.start - occs[1].span.start, 14);
    assert_eq!(occs[1].line_no, 2);
}

#[test]
fn scan_of_text_without_references() {
    assert_eq!(scan("").unwrap(), vec![]);
    assert_eq!(scan("plain text\n[not a link] (x)\n").unwrap(), vec![]);
}

#[test]
fn scan_takes_empty_targets() {
    assert_eq!(scan("[a]()").unwrap(), vec![occ(1, 4, 4)]);
}

#[test]
fn scan_finds_a_reference_inside_a_definition() {
    let text = "[a]: [b](c.md)";
    assert_eq!(targets(text), vec![(1, "[b](c.md)"), (1, "c.md")]);
}
