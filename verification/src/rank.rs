//! The candidate ranker: which of the known files of one base name lies
//! closest to the referencing document.
//!
//! A candidate is rated by the relative path that leads to it from the
//! document's directory: one for each component of that path, and two more
//! for each `..` the path begins with. The lowest rating wins; among equals
//! the first in the list wins, and the tie is reported.

use vstd::prelude::*;
use vstd::string::*;
use crate::context::Context;
use crate::counts::Counts;
use crate::document::Document;
use crate::paths::{opt_view, parts, parts_of, relative, relative_to, Part};
use crate::text::views;

verus! {

/// A relative path that leads to a candidate, with the kinds of its
/// components.
#[derive(Debug)]
pub struct Route {
    pub path: String,
    pub parts: Vec<Part>,
}

/// What the ranker chose.
#[derive(Clone, Copy, Debug, PartialEq, Eq)]
pub struct Choice {
    /// The index of the winning candidate, where any could be rated.
    pub best: Option<usize>,
    /// Whether another candidate has the winner's rating.
    pub tied: bool,
}

/// How many `..` components the path begins with.
pub open spec fn leading_parents(parts: Seq<Part>) -> nat
    decreases parts.len(),
{
    if parts.len() == 0 || parts[0] != Part::ParentDir {
        0
    } else {
        1 + leading_parents(parts.drop_first())
    }
}

/// The rating of a relative path: its number of components, and twice the
/// number of `..` it begins with on top.
pub open spec fn score_of(parts: Seq<Part>) -> nat {
    parts.len() + 2 * leading_parents(parts)
}

/// The ratings of the routes; a candidate without a route has none.
pub open spec fn ratings_of(routes: Seq<Option<Route>>) -> Seq<Option<nat>> {
    routes.map_values(
        |r: Option<Route>|
            match r {
                Some(route) => Some(score_of(route.parts@)),
                None => None,
            },
    )
}

/// Candidate `i` has a rating and no candidate has a lower one.
pub open spec fn is_lowest(ratings: Seq<Option<nat>>, i: int) -> bool {
    &&& 0 <= i < ratings.len()
    &&& ratings[i] is Some
    &&& forall|j: int|
        0 <= j < ratings.len() && (#[trigger] ratings[j]) is Some ==> ratings[i]->0 <= ratings[j]->0
}

/// Candidate `i` is the first with the lowest rating.
pub open spec fn is_winner(ratings: Seq<Option<nat>>, i: int) -> bool {
    &&& is_lowest(ratings, i)
    &&& forall|j: int| 0 <= j < i ==> !is_lowest(ratings, j)
}

/// Two or more candidates have the lowest rating.
pub open spec fn has_tie(ratings: Seq<Option<nat>>) -> bool {
    exists|i: int, j: int| i != j && is_lowest(ratings, i) && is_lowest(ratings, j)
}

/// The first candidate with the lowest rating; `None` where no candidate
/// has a rating.
pub open spec fn winner(ratings: Seq<Option<nat>>) -> Option<int> {
    if exists|i: int| is_winner(ratings, i) {
        Some(choose|i: int| is_winner(ratings, i))
    } else {
        None
    }
}

/// There is at most one winner.
pub proof fn lemma_winner_unique(ratings: Seq<Option<nat>>, i: int, j: int)
    requires
        is_winner(ratings, i),
        is_winner(ratings, j),
    ensures
        i == j,
{
}

/// There is a winner exactly where some candidate has a rating.
pub proof fn lemma_winner_exists(ratings: Seq<Option<nat>>)
    ensures
        winner(ratings) is Some <==> exists|k: int|
            0 <= k < ratings.len() && (#[trigger] ratings[k]) is Some,
        winner(ratings) matches Some(i) ==> is_winner(ratings, i),
    decreases ratings.len(),
{
    if exists|k: int| 0 <= k < ratings.len() && (#[trigger] ratings[k]) is Some {
        let i = lemma_first_lowest(ratings, ratings.len() as int);
        assert(ratings.take(ratings.len() as int) =~= ratings);
        assert(is_winner(ratings, i));
    }
}

/// Among the first `n` candidates, of which one has a rating, the first
/// with the lowest rating.
proof fn lemma_first_lowest(ratings: Seq<Option<nat>>, n: int) -> (i: int)
    requires
        0 <= n <= ratings.len(),
        exists|k: int| 0 <= k < n && (#[trigger] ratings[k]) is Some,
    ensures
        is_winner(ratings.take(n), i),
    decreases n,
{
    let head = ratings.take(n);
    let prev = ratings.take(n - 1);
    assert forall|k: int| 0 <= k < n - 1 implies prev[k] == head[k] by {}
    if exists|k: int| 0 <= k < n - 1 && (#[trigger] ratings[k]) is Some {
        let b = lemma_first_lowest(ratings, n - 1);
        assert(prev[b] == head[b]);
        if head[n - 1] is Some && head[n - 1]->0 < head[b]->0 {
            assert forall|j: int| 0 <= j < n - 1 implies !is_lowest(head, j) by {
                if head[j] is Some {
                    assert(prev[j] is Some);
                    assert(prev[b]->0 <= prev[j]->0);
                }
            }
            assert forall|j: int| 0 <= j < head.len() && (#[trigger] head[j]) is Some implies head[n
                - 1]->0 <= head[j]->0 by {
                if j < n - 1 {
                    assert(prev[j] is Some);
                    assert(prev[b]->0 <= prev[j]->0);
                }
            }
            n - 1
        } else {
            assert forall|j: int| 0 <= j < head.len() && (#[trigger] head[j]) is Some implies head[b]->0
                <= head[j]->0 by {
                if j < n - 1 {
                    assert(prev[j] is Some);
                }
            }
            assert forall|j: int| 0 <= j < b implies !is_lowest(head, j) by {
                if is_lowest(head, j) {
                    assert(head[b] is Some);
                    assert(head[j]->0 <= head[b]->0);
                    assert(prev[j] is Some);
                    assert forall|m: int|
                        0 <= m < prev.len() && (#[trigger] prev[m]) is Some implies prev[j]->0
                        <= prev[m]->0 by {
                        assert(head[m] is Some);
                    }
                    assert(is_lowest(prev, j));
                }
            }
            b
        }
    } else {
        assert(head[n - 1] is Some);
        assert forall|j: int| 0 <= j < head.len() && (#[trigger] head[j]) is Some implies j == n
            - 1 by {}
        n - 1
    }
}

/// Rates a relative path.
pub fn score(parts: &Vec<Part>) -> (res: u128)
    ensures
        res == score_of(parts@),
{
    let mut climbs: usize = 0;
    proof {
        assert(parts@.skip(0) =~= parts@);
    }
    while climbs < parts.len() && matches!(parts[climbs], Part::ParentDir)
        invariant
            climbs <= parts.len(),
            leading_parents(parts@) == climbs + leading_parents(parts@.skip(climbs as int)),
        decreases parts.len() - climbs,
    {
        proof {
            assert(parts@.skip(climbs as int).drop_first() =~= parts@.skip(climbs + 1));
        }
        climbs = climbs + 1;
    }
    proof {
        if climbs < parts.len() {
            assert(parts@.skip(climbs as int)[0] == parts@[climbs as int]);
        }
    }
    parts.len() as u128 + 2 * (climbs as u128)
}

/// What one more candidate means for the candidates before it: one of them
/// has the lowest rating of the longer list exactly where it had the lowest
/// rating before and the new candidate does not rate lower.
proof fn lemma_lowest_with_next(ratings: Seq<Option<nat>>, k: int, j: int)
    requires
        0 <= j < k < ratings.len(),
    ensures
        is_lowest(ratings.take(k + 1), j) <==> is_lowest(ratings.take(k), j) && (ratings[k] is Some
            ==> ratings[j]->0 <= ratings[k]->0),
{
    let head = ratings.take(k);
    let next = ratings.take(k + 1);
    if is_lowest(next, j) {
        assert(next[k] == ratings[k]);
        assert forall|m: int| 0 <= m < head.len() && (#[trigger] head[m]) is Some implies head[j]->0
            <= head[m]->0 by {
            assert(next[m] is Some);
        }
    }
    if is_lowest(head, j) && (ratings[k] is Some ==> ratings[j]->0 <= ratings[k]->0) {
        assert forall|m: int| 0 <= m < next.len() && (#[trigger] next[m]) is Some implies next[j]->0
            <= next[m]->0 by {
            if m < k {
                assert(head[m] is Some);
            }
        }
    }
}

/// The new candidate has the lowest rating of the longer list exactly where
/// it has a rating and none before it rates lower.
proof fn lemma_next_lowest(ratings: Seq<Option<nat>>, k: int)
    requires
        0 <= k < ratings.len(),
    ensures
        is_lowest(ratings.take(k + 1), k) <==> ratings[k] is Some && forall|m: int|
            0 <= m < k && (#[trigger] ratings[m]) is Some ==> ratings[k]->0 <= ratings[m]->0,
{
    let next = ratings.take(k + 1);
    if is_lowest(next, k) {
        assert forall|m: int| 0 <= m < k && (#[trigger] ratings[m]) is Some implies ratings[k]->0
            <= ratings[m]->0 by {
            assert(next[m] is Some);
        }
    }
}

/// How the winner and the tie change with one more candidate.
proof fn lemma_select_step(ratings: Seq<Option<nat>>, k: int)
    requires
        0 <= k < ratings.len(),
    ensures
        ({
            let head = ratings.take(k);
            let next = ratings.take(k + 1);
            match (winner(head), ratings[k]) {
                (Some(b), Some(rating)) if rating >= head[b]->0 => {
                    &&& is_winner(next, b)
                    &&& has_tie(next) <==> has_tie(head) || rating == head[b]->0
                },
                (_, Some(rating)) => is_winner(next, k) && !has_tie(next),
                (Some(b), None) => is_winner(next, b) && (has_tie(next) <==> has_tie(head)),
                (None, None) => winner(next) is None && !has_tie(next),
            }
        }),
{
    let head = ratings.take(k);
    let next = ratings.take(k + 1);
    lemma_winner_exists(head);
    lemma_winner_exists(next);
    lemma_next_lowest(ratings, k);
    assert forall|j: int| 0 <= j < k implies (is_lowest(next, j) <==> is_lowest(head, j) && (
    ratings[k] is Some ==> ratings[j]->0 <= ratings[k]->0)) by {
        lemma_lowest_with_next(ratings, k, j);
    }
    assert forall|j: int| 0 <= j < k implies head[j] == ratings[j] by {}
    assert(next[k] == ratings[k]);
    match (winner(head), ratings[k]) {
        (Some(b), Some(rating)) if rating >= head[b]->0 => {
            assert forall|j: int| 0 <= j < k implies (is_lowest(next, j) <==> is_lowest(head, j)) by {
                if is_lowest(head, j) {
                    assert(head[j]->0 <= head[b]->0);
                }
            }
            assert(is_lowest(next, k) <==> rating == head[b]->0) by {
                if rating == head[b]->0 {
                    assert forall|m: int| 0 <= m < k && (#[trigger] ratings[m]) is Some implies rating
                        <= ratings[m]->0 by {
                        assert(head[m] is Some);
                    }
                }
            }
            if has_tie(next) {
                let (i, j) = choose|i: int, j: int|
                    i != j && is_lowest(next, i) && is_lowest(next, j);
                if i < k && j < k {
                    assert(is_lowest(head, i) && is_lowest(head, j));
                }
            }
            if has_tie(head) {
                let (i, j) = choose|i: int, j: int|
                    i != j && is_lowest(head, i) && is_lowest(head, j);
                assert(is_lowest(next, i) && is_lowest(next, j));
            }
            if rating == head[b]->0 {
                assert(is_lowest(next, b) && is_lowest(next, k));
            }
        },
        (_, Some(rating)) => {
            assert forall|m: int| 0 <= m < k && (#[trigger] ratings[m]) is Some implies rating
                < ratings[m]->0 by {
                assert(head[m] is Some);
                let b = winner(head)->0;
                assert(head[b]->0 <= head[m]->0);
            }
            assert forall|j: int| 0 <= j < k implies !is_lowest(next, j) by {
                if is_lowest(head, j) {
                    assert(ratings[j] is Some);
                }
            }
            if has_tie(next) {
                let (i, j) = choose|i: int, j: int|
                    i != j && is_lowest(next, i) && is_lowest(next, j);
                assert(i == k && j == k);
            }
        },
        (Some(b), None) => {
            if has_tie(next) {
                let (i, j) = choose|i: int, j: int|
                    i != j && is_lowest(next, i) && is_lowest(next, j);
                assert(is_lowest(head, i) && is_lowest(head, j));
            }
            if has_tie(head) {
                let (i, j) = choose|i: int, j: int|
                    i != j && is_lowest(head, i) && is_lowest(head, j);
                assert(is_lowest(next, i) && is_lowest(next, j));
            }
        },
        (None, None) => {
            assert forall|m: int| 0 <= m < next.len() implies (#[trigger] next[m]) is None by {
                if m < k {
                    assert(head[m] is None);
                }
            }
        },
    }
}

/// Chooses among the candidates: the first with the lowest rating wins.
pub fn select(routes: &Vec<Option<Route>>) -> (res: Choice)
    ensures
        match res.best {
            Some(i) => winner(ratings_of(routes@)) == Some(i as int) && i < routes.len(),
            None => winner(ratings_of(routes@)) is None,
        },
        res.tied == has_tie(ratings_of(routes@)),
{
    let ghost ratings = ratings_of(routes@);
    let mut best: Option<usize> = None;
    let mut lowest: u128 = 0;
    let mut ties: usize = 0;
    let mut k: usize = 0;
    proof {
        lemma_winner_exists(ratings.take(0));
    }
    while k < routes.len()
        invariant
            k <= routes.len(),
            ratings == ratings_of(routes@),
            ties <= k,
            match best {
                Some(b) => {
                    &&& b < k
                    &&& winner(ratings.take(k as int)) == Some(b as int)
                    &&& ratings[b as int] == Some(lowest as nat)
                },
                None => winner(ratings.take(k as int)) is None,
            },
            ties > 0 <==> has_tie(ratings.take(k as int)),
        decreases routes.len() - k,
    {
        proof {
            lemma_select_step(ratings, k as int);
            lemma_winner_exists(ratings.take(k as int));
            lemma_winner_exists(ratings.take(k + 1));
            if best is Some {
                assert(ratings.take(k as int)[best->0 as int] == ratings[best->0 as int]);
            }
            if winner(ratings.take(k + 1)) is Some {
                let w = winner(ratings.take(k + 1))->0;
                if is_winner(ratings.take(k + 1), k as int) {
                    lemma_winner_unique(ratings.take(k + 1), w, k as int);
                }
                if best is Some && is_winner(ratings.take(k + 1), best->0 as int) {
                    lemma_winner_unique(ratings.take(k + 1), w, best->0 as int);
                }
            }
        }
        match &routes[k] {
            Some(route) => {
                let rating = score(&route.parts);
                match best {
                    Some(_) if rating > lowest => {},
                    Some(_) if rating == lowest => {
                        ties = ties + 1;
                    },
                    _ => {
                        best = Some(k);
                        lowest = rating;
                        ties = 0;
                    },
                }
            },
            None => {},
        }
        k = k + 1;
    }
    proof {
        assert(ratings.take(routes.len() as int) =~= ratings);
    }
    Choice { best, tied: ties > 0 }
}

/// The rating of the candidate `name` as seen from the directory `dir`;
/// `None` where no relative path leads from one to the other.
pub open spec fn rating(dir: Seq<char>, name: Seq<char>) -> Option<nat> {
    match relative_to(name, dir) {
        Some(route) => Some(score_of(parts_of(route))),
        None => None,
    }
}

/// The ratings of the candidates.
pub open spec fn ratings(dir: Seq<char>, names: Seq<Seq<char>>) -> Seq<Option<nat>> {
    names.map_values(|name: Seq<char>| rating(dir, name))
}

/// The relative path to the winning candidate; `None` where no candidate
/// can be reached by a relative path.
pub open spec fn ranked(dir: Seq<char>, names: Seq<Seq<char>>) -> Option<Seq<char>> {
    match winner(ratings(dir, names)) {
        Some(i) => relative_to(names[i], dir),
        None => None,
    }
}

/// Two or more candidates have the lowest rating.
pub open spec fn tied(dir: Seq<char>, names: Seq<Seq<char>>) -> bool {
    has_tie(ratings(dir, names))
}

/// The route from `dir` to the candidate `name`, where there is one.
pub fn route(dir: &str, name: &str) -> (res: Option<Route>)
    ensures
        match res {
            Some(route) => relative_to(name@, dir@) == Some(route.path@) && route.parts@ == parts_of(
                route.path@,
            ),
            None => relative_to(name@, dir@) is None,
        },
{
    match relative(name, dir) {
        Some(path) => {
            let parts = parts(path.as_str());
            Some(Route { path, parts })
        },
        None => None,
    }
}

impl Context {
    /// Ranks the candidates `names` for a reference in `file` and gives the
    /// relative path to the winner.
    ///
    /// A candidate that no relative path leads to is passed over. Where two
    /// or more candidates have the lowest rating, the first of them wins and
    /// the tie is counted.
    pub fn rank_names(file: &Document, names: &Vec<String>, count: &mut Counts) -> (res: Option<
        String,
    >)
        requires
            old(count).ties < usize::MAX,
        ensures
            opt_view(res) == ranked(file@.dir, views(names@)),
            *final(count) == (Counts {
                ties: if res is Some && tied(file@.dir, views(names@)) {
                    (old(count).ties + 1) as usize
                } else {
                    old(count).ties
                },
                ..*old(count)
            }),
    {
        let dir = file.dir();
        let ghost all = views(names@);
        let mut routes: Vec<Option<Route>> = Vec::new();
        let mut k: usize = 0;
        while k < names.len()
            invariant
                k <= names.len(),
                dir@ == file@.dir,
                all == views(names@),
                routes.len() == k,
                forall|i: int|
                    0 <= i < k ==> match #[trigger] routes[i] {
                        Some(route) => relative_to(all[i], dir@) == Some(route.path@)
                            && route.parts@ == parts_of(route.path@),
                        None => relative_to(all[i], dir@) is None,
                    },
            decreases names.len() - k,
        {
            let found = route(dir, names[k].as_str());
            routes.push(found);
            k = k + 1;
        }
        proof {
            assert(ratings_of(routes@) =~= ratings(dir@, all));
        }
        let choice = select(&routes);
        match choice.best {
            Some(i) => {
                if choice.tied {
                    count.ties = count.ties + 1;
                }
                match &routes[i] {
                    Some(route) => Some(route.path.clone()),
                    None => None,
                }
            },
            None => None,
        }
    }
}

/// The same directory and the same list of candidates always give the same
/// choice: the first candidate with the lowest rating, whichever way it is
/// found.
pub proof fn law_ranking_deterministic(dir: Seq<char>, names: Seq<Seq<char>>, i: int)
    requires
        is_winner(ratings(dir, names), i),
    ensures
        winner(ratings(dir, names)) == Some(i),
        ranked(dir, names) == relative_to(names[i], dir),
        ranked(dir, names) is Some,
{
    lemma_winner_exists(ratings(dir, names));
    lemma_winner_unique(ratings(dir, names), i, winner(ratings(dir, names))->0);
}

/// A value that stands at two places of a sequence stands at two places of
/// every rearrangement of it.
proof fn lemma_twice_in_rearrangement<A>(a: Seq<A>, b: Seq<A>, i: int, j: int) -> (at: (int, int))
    requires
        a.to_multiset() == b.to_multiset(),
        0 <= i < j < a.len(),
        a[i] == a[j],
    ensures
        0 <= at.0 < at.1 < b.len(),
        b[at.0] == a[i],
        b[at.1] == a[i],
{
    let x = a[i];
    a.to_multiset_ensures();
    b.to_multiset_ensures();
    a.remove(i).to_multiset_ensures();
    assert(a.remove(i)[j - 1] == x);
    assert(a.remove(i).contains(x));
    assert(a.remove(i).to_multiset().count(x) > 0);
    assert(a.to_multiset().remove(x).count(x) > 0);
    assert(b.to_multiset().count(x) >= 2);
    assert(b.contains(x));
    let m = choose|m: int| 0 <= m < b.len() && b[m] == x;
    b.remove(m).to_multiset_ensures();
    assert(b.remove(m).to_multiset().count(x) > 0);
    assert(b.remove(m).contains(x));
    let n = choose|n: int| 0 <= n < b.remove(m).len() && b.remove(m)[n] == x;
    if n < m {
        assert(b[n] == x);
        (n, m)
    } else {
        assert(b[n + 1] == x);
        (m, n + 1)
    }
}

/// Each candidate of a list stands somewhere in every rearrangement of it.
proof fn lemma_in_rearrangement<A>(a: Seq<A>, b: Seq<A>, i: int) -> (at: int)
    requires
        a.to_multiset() == b.to_multiset(),
        0 <= i < a.len(),
    ensures
        0 <= at < b.len(),
        b[at] == a[i],
{
    a.to_multiset_ensures();
    b.to_multiset_ensures();
    assert(a.contains(a[i]));
    assert(a.to_multiset().count(a[i]) > 0);
    assert(b.contains(a[i]));
    choose|m: int| 0 <= m < b.len() && b[m] == a[i]
}

/// A candidate with the lowest rating has the lowest rating in every
/// rearrangement of the list.
proof fn lemma_lowest_in_rearrangement(
    dir: Seq<char>,
    a: Seq<Seq<char>>,
    b: Seq<Seq<char>>,
    i: int,
    j: int,
)
    requires
        a.to_multiset() == b.to_multiset(),
        is_lowest(ratings(dir, a), i),
        0 <= j < b.len(),
        b[j] == a[i],
    ensures
        is_lowest(ratings(dir, b), j),
{
    let ra = ratings(dir, a);
    let rb = ratings(dir, b);
    assert forall|m: int| 0 <= m < rb.len() && (#[trigger] rb[m]) is Some implies rb[j]->0
        <= rb[m]->0 by {
        let n = lemma_in_rearrangement(b, a, m);
        assert(ra[n] == rb[m]);
    }
}

/// The order of the candidates decides neither whether there is a winner,
/// nor the winner's rating, nor whether a tie is reported; and where no tie
/// is reported, it does not decide the winner either.
pub proof fn law_ranking_regardless_of_order(dir: Seq<char>, a: Seq<Seq<char>>, b: Seq<Seq<char>>)
    requires
        a.to_multiset() == b.to_multiset(),
    ensures
        ranked(dir, a) is Some <==> ranked(dir, b) is Some,
        winner(ratings(dir, a)) is Some ==> ratings(dir, a)[winner(ratings(dir, a))->0] == ratings(
            dir,
            b,
        )[winner(ratings(dir, b))->0],
        tied(dir, a) == tied(dir, b),
        !tied(dir, a) ==> ranked(dir, a) == ranked(dir, b),
{
    lemma_order_one_way(dir, a, b);
    lemma_order_one_way(dir, b, a);
}

/// One direction of the law on the order of the candidates.
proof fn lemma_order_one_way(dir: Seq<char>, a: Seq<Seq<char>>, b: Seq<Seq<char>>)
    requires
        a.to_multiset() == b.to_multiset(),
    ensures
        winner(ratings(dir, a)) is Some ==> winner(ratings(dir, b)) is Some,
        ranked(dir, a) is Some ==> ranked(dir, b) is Some,
        winner(ratings(dir, a)) is Some ==> ratings(dir, a)[winner(ratings(dir, a))->0] == ratings(
            dir,
            b,
        )[winner(ratings(dir, b))->0],
        tied(dir, a) ==> tied(dir, b),
        !tied(dir, b) ==> ranked(dir, a) == ranked(dir, b),
{
    let ra = ratings(dir, a);
    let rb = ratings(dir, b);
    lemma_winner_exists(ra);
    lemma_winner_exists(rb);
    if winner(ra) is Some {
        let wa = winner(ra)->0;
        let j = lemma_in_rearrangement(a, b, wa);
        lemma_lowest_in_rearrangement(dir, a, b, wa, j);
        assert(rb[j] is Some);
        let wb = winner(rb)->0;
        assert(rb[wb]->0 <= rb[j]->0);
        assert(rb[j]->0 <= rb[wb]->0);
        if !tied(dir, b) {
            if j != wb {
                assert(is_lowest(rb, j) && is_lowest(rb, wb));
            }
            assert(j == wb);
        }
    } else {
        if winner(rb) is Some {
            let wb = winner(rb)->0;
            let i = lemma_in_rearrangement(b, a, wb);
            assert(ra[i] is Some);
        }
    }
    if tied(dir, a) {
        let (i, k) = choose|i: int, k: int| i != k && is_lowest(ra, i) && is_lowest(ra, k);
        if a[i] == a[k] {
            let at = if i < k {
                lemma_twice_in_rearrangement(a, b, i, k)
            } else {
                lemma_twice_in_rearrangement(a, b, k, i)
            };
            lemma_lowest_in_rearrangement(dir, a, b, i, at.0);
            lemma_lowest_in_rearrangement(dir, a, b, i, at.1);
        } else {
            let j = lemma_in_rearrangement(a, b, i);
            let m = lemma_in_rearrangement(a, b, k);
            lemma_lowest_in_rearrangement(dir, a, b, i, j);
            lemma_lowest_in_rearrangement(dir, a, b, k, m);
        }
    }
}

} // verus!
