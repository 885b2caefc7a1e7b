use fixlinks::context::Context;
use fixlinks::counts::Counts;
use fixlinks::document::Document;
use fixlinks::paths::Part;
use fixlinks::rank::{route, score, select, Choice, Route};

fn strings(items: &[&str]) -> Vec<String> {
    items.iter().map(|s| s.to_string()).collect()
}

fn rated(parts: Vec<Part>) -> Option<Route> {
    Some(Route { path: String::new(), parts })
}

fn climb(ups: usize, downs: usize) -> Option<Route> {
    let mut parts = vec![Part::ParentDir; ups];
    parts.extend(vec![Part::Normal; downs]);
    rated(parts)
}

fn rank(file: &str, names: &[&str]) -> (Option<String>, usize) {
    let doc = Document::new(file).unwrap();
    let mut count = Counts::new();
    let best = Context::rank_names(&doc, &strings(names), &mut count);
    assert_eq!(count, Counts { ties: count.ties, ..Counts::new() });
    (best, count.ties)
}

#[test]
fn score_counts_components_and_leading_climbs_twice_more() {
    assert_eq!(score(&vec![]), 0);
    assert_eq!(score(&vec![Part::Normal]), 1);
    assert_eq!(score(&vec![Part::Normal, Part::Normal]), 2);
    assert_eq!(score(&vec![Part::ParentDir, Part::Normal]), 4);
    assert_eq!(score(&vec![Part::ParentDir, Part::ParentDir, Part::Normal]), 7);
    assert_eq!(score(&vec![Part::ParentDir, Part::ParentDir]), 6);
}

#[test]
fn score_counts_only_the_climbs_in_front() {
    assert_eq!(score(&vec![Part::Normal, Part::ParentDir, Part::Normal]), 3);
    assert_eq!(score(&vec![Part::ParentDir, Part::Normal, Part::ParentDir]), 5);
    assert_eq!(score(&vec![Part::CurDir, Part::ParentDir]), 2);
    assert_eq!(score(&vec![Part::RootDir, Part::Normal]), 2);
}

#[test]
fn route_holds_the_relative_path_and_its_components() {
    let r = route("docs", "docs/sub/b.md").unwrap();
    assert_eq!(r.path, "sub/b.md");
    assert_eq!(r.parts, vec![Part::Normal, Part::Normal]);
    let r = route("docs/guide", "src/x.md").unwrap();
    assert_eq!(r.path, "../../src/x.md");
    assert_eq!(r.parts, vec![Part::ParentDir, Part::ParentDir, Part::Normal, Part::Normal]);
    let r = route("docs", "/abs/x.md").unwrap();
    assert_eq!(r.path, "/abs/x.md");
    assert_eq!(r.parts, vec![Part::RootDir, Part::Normal, Part::Normal]);
}

#[test]
fn route_from_an_absolute_directory_to_a_relative_file_is_none() {
    assert!(route("/docs", "docs/x.md").is_none());
    assert!(route("..", "x.md").is_none());
}

#[test]
fn select_of_nothing() {
    assert_eq!(select(&vec![]), Choice { best: None, tied: false });
    assert_eq!(select(&vec![None, None]), Choice { best: None, tied: false });
}

#[test]
fn select_takes_the_lowest_rating() {
    let routes = vec![climb(2, 1), climb(0, 2), climb(1, 1)];
    assert_eq!(select(&routes), Choice { best: Some(1), tied: false });
}

#[test]
fn select_takes_the_first_of_equals_and_reports_the_tie() {
    let routes = vec![climb(0, 3), climb(0, 2), None, climb(0, 2), climb(0, 2)];
    assert_eq!(select(&routes), Choice { best: Some(1), tied: true });
}

#[test]
fn select_forgets_a_tie_above_the_lowest_rating() {
    let routes = vec![climb(0, 3), climb(0, 3), climb(0, 2)];
    assert_eq!(select(&routes), Choice { best: Some(2), tied: false });
    let routes = vec![climb(0, 2), climb(0, 3), climb(0, 3)];
    assert_eq!(select(&routes), Choice { best: Some(0), tied: false });
}

#[test]
fn select_passes_over_candidates_without_route() {
    let routes = vec![None, climb(1, 1), None];
    assert_eq!(select(&routes), Choice { best: Some(1), tied: false });
}

#[test]
fn rank_prefers_descendant_over_climb() {
    let (best, ties) = rank("a/b/doc.md", &["x.md", "a/b/sub/x.md"]);
    assert_eq!(best.as_deref(), Some("sub/x.md"));
    assert_eq!(ties, 0);
}

#[test]
fn rank_prefers_longer_descent_over_short_climb() {
    let (best, _) = rank("a/doc.md", &["x.md", "a/p/q/x.md"]);
    assert_eq!(best.as_deref(), Some("p/q/x.md"));
    let (best, _) = rank("a/doc.md", &["x.md", "a/p/q/r/s/x.md"]);
    assert_eq!(best.as_deref(), Some("../x.md"));
}

#[test]
fn rank_tie_takes_first_seen() {
    let (best, ties) = rank("docs/a.md", &["docs/x/c.md", "docs/y/c.md"]);
    assert_eq!(best.as_deref(), Some("x/c.md"));
    assert_eq!(ties, 1);
    let (best, ties) = rank("docs/a.md", &["docs/y/c.md", "docs/x/c.md"]);
    assert_eq!(best.as_deref(), Some("y/c.md"));
    assert_eq!(ties, 1);
}

#[test]
fn rank_counts_one_tie_however_many_are_equal() {
    let (_, ties) = rank("docs/a.md", &["docs/x/c.md", "docs/y/c.md", "docs/z/c.md"]);
    assert_eq!(ties, 1);
}

#[test]
fn rank_without_tie_does_not_depend_on_order() {
    let names = ["q/c.md", "docs/x/c.md", "docs/x/y/c.md"];
    let orders: [[usize; 3]; 6] = [[0, 1, 2], [0, 2, 1], [1, 0, 2], [1, 2, 0], [2, 0, 1], [2, 1, 0]];
    for order in orders {
        let list: Vec<&str> = order.iter().map(|&i| names[i]).collect();
        let (best, ties) = rank("docs/a.md", &list);
        assert_eq!(best.as_deref(), Some("x/c.md"));
        assert_eq!(ties, 0);
    }
}

#[test]
fn rank_flags_tie_in_every_order() {
    let names = ["docs/x/c.md", "c.md", "docs/y/c.md"];
    let orders: [[usize; 3]; 6] = [[0, 1, 2], [0, 2, 1], [1, 0, 2], [1, 2, 0], [2, 0, 1], [2, 1, 0]];
    for order in orders {
        let list: Vec<&str> = order.iter().map(|&i| names[i]).collect();
        let (best, ties) = rank("docs/a.md", &list);
        assert_eq!(ties, 1);
        let first = if order.iter().position(|&i| i == 0) < order.iter().position(|&i| i == 2) {
            "x/c.md"
        } else {
            "y/c.md"
        };
        assert_eq!(best.as_deref(), Some(first));
    }
}

#[test]
fn rank_without_comparable_candidate() {
    let (best, ties) = rank("/abs/docs/a.md", &["rel/c.md", "other/c.md"]);
    assert_eq!(best, None);
    assert_eq!(ties, 0);
    let (best, ties) = rank("docs/a.md", &[]);
    assert_eq!(best, None);
    assert_eq!(ties, 0);
}

#[test]
fn rank_adds_to_the_ties_it_was_given() {
    let doc = Document::new("docs/a.md").unwrap();
    let mut count = Counts { urls: 9, paths: 8, missing: 7, matches: 6, ambiguous: 5, ties: 4 };
    Context::rank_names(&doc, &strings(&["docs/x/c.md", "docs/y/c.md"]), &mut count);
    assert_eq!(count, Counts { urls: 9, paths: 8, missing: 7, matches: 6, ambiguous: 5, ties: 5 });
}
