//! Matching the nodes against the patterns of a query: which nodes are
//! shown, and how the shown nodes are displayed.

use crate::highlight::{
    highlight_name, kept_cover, kept_covers, lemma_painted_by_coverage, lemma_reduction_covers,
    marked, pattern_cover, pattern_covers,
};
use crate::link::{
    lemma_chain_bounds, lemma_chain_transitive, on_chain, parents_of, parents_precede,
};
use crate::path::{chars_of_all, Path, PathBehaviour, PathView};
use crate::patterns::{
    chars_match, is_reduction, kept_match, lemma_reduction_matches, matches_all, query_patterns,
};
use crate::text::chars_of;
use vstd::prelude::*;

verus! {

/// The walk that starts at `node` and climbs from parent to parent until it
/// meets a node that has been seen reaches node `i`.
pub open spec fn climbs_to(parents: Seq<Option<usize>>, seen: Seq<bool>, node: int, i: int) -> bool
    decreases node,
{
    if node < 0 || node >= parents.len() {
        false
    } else if i == node {
        true
    } else {
        match parents[node] {
            Some(p) => p < node && p < seen.len() && !seen[p as int] && climbs_to(
                parents,
                seen,
                p as int,
                i,
            ),
            None => false,
        }
    }
}

/// The number of nodes that the walk from `node` reaches.
pub open spec fn climb_len(parents: Seq<Option<usize>>, seen: Seq<bool>, node: int) -> nat
    decreases node,
{
    if node < 0 || node >= parents.len() {
        0
    } else {
        match parents[node] {
            Some(p) => if p < node && p < seen.len() && !seen[p as int] {
                1 + climb_len(parents, seen, p as int)
            } else {
                1
            },
            None => 1,
        }
    }
}

/// `after` is `before` with more nodes shown: those for which `more` holds.
pub open spec fn shows_more(
    before: Seq<PathView>,
    after: Seq<PathView>,
    more: spec_fn(int) -> bool,
) -> bool {
    &&& after.len() == before.len()
    &&& forall|i: int|
        0 <= i < before.len() ==> #[trigger] after[i] == (PathView {
            matched: before[i].matched || more(i),
            ..before[i]
        })
}

/// With every seen node, the nodes on its chain have been seen.
pub open spec fn seen_upwards(parents: Seq<Option<usize>>, seen: Seq<bool>) -> bool {
    forall|a: int, b: int|
        0 <= a < seen.len() && seen[a] && #[trigger] on_chain(parents, b, a) ==> seen[b]
}

/// The path name of node `j` holds every pattern.
pub open spec fn is_hit(nodes: Seq<PathView>, patterns: Seq<Seq<char>>, j: int) -> bool {
    matches_all(nodes[j].joined, patterns)
}

/// Node `i` is one of the first `k` nodes and a hit, or lies above one of
/// them that is.
pub open spec fn leads_to_hit(
    nodes: Seq<PathView>,
    patterns: Seq<Seq<char>>,
    i: int,
    k: int,
) -> bool {
    exists|j: int|
        0 <= j < k && j < nodes.len() && is_hit(nodes, patterns, j) && #[trigger] on_chain(
            parents_of(nodes),
            i,
            j,
        )
}

/// The last component of `node` with every occurrence of a pattern
/// highlighted: occurrences that overlap or touch make one span.
pub open spec fn highlighted(node: PathView, patterns: Seq<Seq<char>>) -> Seq<char> {
    marked(node.segments.last(), pattern_cover(node.segments.last(), patterns))
}

/// What matching the first `k` nodes of `before` against `patterns` makes
/// of node `i`: it is shown if it was or if it leads to a hit, and if it
/// is a hit itself its name is highlighted.
pub open spec fn matched_node(
    before: Seq<PathView>,
    patterns: Seq<Seq<char>>,
    i: int,
    k: int,
) -> PathView {
    PathView {
        matched: before[i].matched || leads_to_hit(before, patterns, i, k),
        match_text: if i < k && is_hit(before, patterns, i) {
            highlighted(before[i], patterns)
        } else {
            before[i].match_text
        },
        ..before[i]
    }
}

/// Node `i` matches the kept patterns or lies above a node that does.
pub open spec fn leads_to_match(nodes: Seq<PathView>, patterns: Seq<Seq<char>>, i: int) -> bool {
    exists|j: int|
        0 <= j < nodes.len() && kept_match(nodes[j].joined, patterns) && #[trigger] on_chain(
            parents_of(nodes),
            i,
            j,
        )
}

/// What filtering by `query` makes of node `i`.
///
/// Under the empty query every node is shown under its plain name. Under
/// any other query a node is shown if its path name holds all the kept
/// patterns of the query, or if it lies above such a node; the name of a
/// node that matches has the occurrences of the kept patterns highlighted,
/// the name of any other node is plain.
pub open spec fn filtered_node(nodes: Seq<PathView>, query: Seq<char>, i: int) -> PathView {
    let name = nodes[i].segments.last();
    let patterns = query_patterns(query);
    if query.len() == 0 {
        PathView { matched: true, match_text: name, ..nodes[i] }
    } else {
        PathView {
            matched: leads_to_match(nodes, patterns, i),
            match_text: if kept_match(nodes[i].joined, patterns) {
                marked(name, kept_cover(name, patterns))
            } else {
                name
            },
            ..nodes[i]
        }
    }
}

/// What filtering by `query` makes of `nodes`.
pub open spec fn filtered(nodes: Seq<PathView>, query: Seq<char>) -> Seq<PathView> {
    Seq::new(nodes.len(), |i: int| filtered_node(nodes, query, i))
}

/// Marks `node` as seen and tells whether it had not been seen before.
pub fn push_seen(seen: &mut Vec<bool>, node: usize) -> (fresh: bool)
    requires
        node < old(seen).len(),
    ensures
        fresh == !old(seen)[node as int],
        final(seen)@ == old(seen)@.update(node as int, true),
{
    if seen[node] {
        assert(seen@ =~= old(seen)@.update(node as int, true));
        false
    } else {
        seen[node] = true;
        true
    }
}

/// Shows `node` and the ancestors above it, up to the first that has been
/// seen, marks them all as seen, and returns how many they are.
pub fn match_stack(paths: &mut Vec<Path>, node: usize, seen: &mut Vec<bool>) -> (n: usize)
    requires
        node < old(paths).len(),
        old(seen).len() == old(paths).len(),
        parents_precede(old(paths).deep_view(), old(paths).len() as int),
    ensures
        n == climb_len(parents_of(old(paths).deep_view()), old(seen)@, node as int),
        final(seen).len() == old(seen).len(),
        forall|i: int|
            0 <= i < old(seen).len() ==> #[trigger] final(seen)[i] == (old(seen)[i] || climbs_to(
                parents_of(old(paths).deep_view()),
                old(seen)@,
                node as int,
                i,
            )),
        shows_more(
            old(paths).deep_view(),
            final(paths).deep_view(),
            |i: int| climbs_to(parents_of(old(paths).deep_view()), old(seen)@, node as int, i),
        ),
    decreases node,
{
    let ghost nodes = paths.deep_view();
    let ghost parents = parents_of(nodes);
    let ghost marks = seen@;
    let mut n: usize = 1;
    paths[node].matched = true;
    push_seen(seen, node);
    let ghost shown = paths.deep_view();
    assert(parents_of(shown) =~= parents);
    assert(parents_precede(shown, shown.len() as int)) by {
        assert forall|i: int| 0 <= i < shown.len() implies ((#[trigger] shown[i]).parent matches Some(
            q,
        ) ==> q < i) by {
            assert(shown[i].parent == nodes[i].parent);
        }
    }
    assert(nodes[node as int].parent == parents[node as int]);
    let up = paths[node].parent;
    assert(up == parents[node as int]);
    if let Some(parent) = up {
        assert(parent < node);
        if push_seen(seen, parent) {
            let ghost marked = seen@;
            proof {
                lemma_climb(parents, marks, parent as int, 0);
                assert forall|i: int| climbs_to(parents, marked, parent as int, i) == climbs_to(
                    parents,
                    marks,
                    parent as int,
                    i,
                ) by {
                    lemma_climb_reads_below(parents, marked, marks, parent as int, i);
                }
                lemma_climb_reads_below(parents, marked, marks, parent as int, 0);
            }
            let more = match_stack(paths, parent, seen);
            n = n + more;
            proof {
                let after = paths.deep_view();
                assert forall|i: int| 0 <= i < nodes.len() implies #[trigger] after[i] == (
                PathView {
                    matched: nodes[i].matched || climbs_to(parents, marks, node as int, i),
                    ..nodes[i]
                }) by {
                    lemma_climb(parents, marks, parent as int, i);
                    assert(after[i] == (PathView {
                        matched: shown[i].matched || climbs_to(parents, marked, parent as int, i),
                        ..shown[i]
                    }));
                }
                assert forall|i: int| 0 <= i < marks.len() implies #[trigger] seen[i] == (marks[i]
                    || climbs_to(parents, marks, node as int, i)) by {
                    lemma_climb(parents, marks, parent as int, i);
                }
            }
        } else {
            proof {
                assert forall|i: int| 0 <= i < nodes.len() implies #[trigger] shown[i] == (
                PathView {
                    matched: nodes[i].matched || climbs_to(parents, marks, node as int, i),
                    ..nodes[i]
                }) by {}
            }
        }
    } else {
        proof {
            assert forall|i: int| 0 <= i < nodes.len() implies #[trigger] shown[i] == (PathView {
                matched: nodes[i].matched || climbs_to(parents, marks, node as int, i),
                ..nodes[i]
            }) by {}
        }
    }
    n
}

/// Shows every node whose path name holds all of `patterns`, and the
/// ancestors of each, and highlights in the name of every such node the
/// occurrences of the patterns. Nodes that are shown stay shown.
pub fn match_paths(paths: &mut Vec<Path>, patterns: &Vec<String>)
    requires
        parents_precede(old(paths).deep_view(), old(paths).len() as int),
        forall|i: int| 0 <= i < old(paths).len() ==> (#[trigger] old(paths).deep_view()[i]).segments.len() > 0,
    ensures
        final(paths).len() == old(paths).len(),
        forall|i: int|
            0 <= i < old(paths).len() ==> #[trigger] final(paths).deep_view()[i] == matched_node(
                old(paths).deep_view(),
                patterns.deep_view(),
                i,
                old(paths).len() as int,
            ),
{
    let n = paths.len();
    let chars = chars_of_all(patterns);
    let ghost nodes = paths.deep_view();
    let ghost parents = parents_of(nodes);
    let ghost pats = patterns.deep_view();
    let mut seen: Vec<bool> = Vec::new();
    let mut k: usize = 0;
    while k < n
        invariant
            k <= n,
            seen.len() == k,
            forall|i: int| 0 <= i < k ==> !(#[trigger] seen[i]),
        decreases n - k,
    {
        seen.push(false);
        k += 1;
    }
    k = 0;
    assert(chars.deep_view().len() == chars.len() && pats.len() == patterns.len());
    while k < n
        invariant
            k <= n,
            n == paths.len(),
            n == nodes.len(),
            seen.len() == n,
            parents == parents_of(nodes),
            chars.deep_view() == pats,
            chars.len() == pats.len(),
            parents_precede(nodes, n as int),
            forall|i: int| 0 <= i < n ==> (#[trigger] nodes[i]).segments.len() > 0,
            forall|i: int|
                0 <= i < n ==> #[trigger] paths.deep_view()[i] == matched_node(
                    nodes,
                    pats,
                    i,
                    k as int,
                ),
            forall|i: int| 0 <= i < n ==> #[trigger] seen[i] == leads_to_hit(nodes, pats, i, k as int),
        decreases n - k,
    {
        let ghost cur = paths.deep_view();
        let ghost marks = seen@;
        assert(cur[k as int] == paths[k as int]@);
        assert(cur[k as int].joined == nodes[k as int].joined);
        assert(cur[k as int].segments == nodes[k as int].segments);
        let joined = chars_of(paths[k].joined.as_str());
        let hit = chars_match(&joined, &chars, true);
        assert(hit == is_hit(nodes, pats, k as int));
        if hit {
            let text = highlight_name(paths[k].basename(), &chars);
            proof {
                assert(text@ == highlighted(nodes[k as int], pats));
                assert(parents_of(cur) =~= parents);
                assert(parents_precede(cur, n as int)) by {
                    assert forall|i: int| 0 <= i < n implies ((#[trigger] cur[i]).parent matches Some(
                        q,
                    ) ==> q < i) by {
                        assert(cur[i].parent == nodes[i].parent);
                    }
                }
            }
            match_stack(paths, k, &mut seen);
            let ghost mid = paths.deep_view();
            paths[k].match_text = text;
            proof {
                let after = paths.deep_view();
                assert forall|i: int| 0 <= i < n implies #[trigger] after[i] == matched_node(
                    nodes,
                    pats,
                    i,
                    k + 1,
                ) by {
                    lemma_walk_leads(nodes, pats, marks, k as int, i);
                    assert(cur[i] == matched_node(nodes, pats, i, k as int));
                    assert(mid[i] == (PathView {
                        matched: cur[i].matched || climbs_to(parents, marks, k as int, i),
                        ..cur[i]
                    }));
                    if i == k {
                        assert(after[i] == (PathView { match_text: text@, ..mid[i] }));
                    } else {
                        assert(after[i] == mid[i]);
                    }
                }
                assert forall|i: int| 0 <= i < n implies #[trigger] seen[i] == leads_to_hit(
                    nodes,
                    pats,
                    i,
                    k + 1,
                ) by {
                    lemma_walk_leads(nodes, pats, marks, k as int, i);
                    assert(seen[i] == (marks[i] || climbs_to(parents, marks, k as int, i)));
                }
            }
        } else {
            proof {
                assert forall|i: int| 0 <= i < n implies leads_to_hit(nodes, pats, i, k as int)
                    == leads_to_hit(nodes, pats, i, k + 1) by {
                    lemma_leads_step(nodes, pats, i, k as int);
                }
            }
        }
        k += 1;
    }
}

/// The walk reaches only `node` and nodes before it, all on its chain, and
/// no more of them than there are.
pub proof fn lemma_climb(parents: Seq<Option<usize>>, seen: Seq<bool>, node: int, i: int)
    ensures
        climbs_to(parents, seen, node, i) ==> 0 <= i <= node && on_chain(parents, i, node),
        0 <= node ==> climb_len(parents, seen, node) <= node + 1,
    decreases node,
{
    if 0 <= node < parents.len() {
        if let Some(p) = parents[node] {
            if p < node {
                lemma_climb(parents, seen, p as int, i);
            }
        }
    }
}

/// The walk from `node` reads the marks of the nodes before `node` only.
pub proof fn lemma_climb_reads_below(
    parents: Seq<Option<usize>>,
    a: Seq<bool>,
    b: Seq<bool>,
    node: int,
    i: int,
)
    requires
        a.len() == b.len(),
        forall|j: int| 0 <= j < node && j < a.len() ==> a[j] == b[j],
    ensures
        climbs_to(parents, a, node, i) == climbs_to(parents, b, node, i),
        climb_len(parents, a, node) == climb_len(parents, b, node),
    decreases node,
{
    if 0 <= node < parents.len() {
        if let Some(p) = parents[node] {
            if p < node {
                lemma_climb_reads_below(parents, a, b, p as int, i);
            }
        }
    }
}

/// A walk that stops at a seen node misses no node of the chain that has
/// not been seen.
pub proof fn lemma_climb_or_seen(parents: Seq<Option<usize>>, seen: Seq<bool>, node: int, i: int)
    requires
        seen.len() == parents.len(),
        seen_upwards(parents, seen),
        on_chain(parents, i, node),
    ensures
        seen[i] || climbs_to(parents, seen, node, i),
    decreases node,
{
    if i != node {
        if let Some(p) = parents[node] {
            if seen[p as int] {
                assert(on_chain(parents, i, p as int));
            } else {
                lemma_climb_or_seen(parents, seen, p as int, i);
            }
        }
    }
}

/// The nodes that lead to a hit among the first `k + 1` nodes are those
/// that lead to one among the first `k`, and, if node `k` is a hit, the
/// nodes on its chain.
pub proof fn lemma_leads_step(nodes: Seq<PathView>, patterns: Seq<Seq<char>>, i: int, k: int)
    requires
        0 <= k < nodes.len(),
    ensures
        leads_to_hit(nodes, patterns, i, k + 1) == (leads_to_hit(nodes, patterns, i, k) || (is_hit(
            nodes,
            patterns,
            k,
        ) && on_chain(parents_of(nodes), i, k))),
{
    let parents = parents_of(nodes);
    if leads_to_hit(nodes, patterns, i, k + 1) {
        let j = choose|j: int|
            0 <= j < k + 1 && j < nodes.len() && is_hit(nodes, patterns, j) && #[trigger] on_chain(
                parents,
                i,
                j,
            );
        if j < k {
            assert(leads_to_hit(nodes, patterns, i, k));
        }
    }
    if leads_to_hit(nodes, patterns, i, k) {
        let j = choose|j: int|
            0 <= j < k && j < nodes.len() && is_hit(nodes, patterns, j) && #[trigger] on_chain(
                parents,
                i,
                j,
            );
        assert(on_chain(parents, i, j));
    }
}

/// A node above one that leads to a hit leads to that hit too.
pub proof fn lemma_leads_up(nodes: Seq<PathView>, patterns: Seq<Seq<char>>, a: int, b: int, k: int)
    requires
        leads_to_hit(nodes, patterns, a, k),
        on_chain(parents_of(nodes), b, a),
    ensures
        leads_to_hit(nodes, patterns, b, k),
{
    let parents = parents_of(nodes);
    let j = choose|j: int|
        0 <= j < k && j < nodes.len() && is_hit(nodes, patterns, j) && #[trigger] on_chain(
            parents,
            a,
            j,
        );
    lemma_chain_transitive(parents, b, a, j);
}

/// When the nodes that lead to a hit among the first `k` nodes have been
/// seen, and node `k` is a hit, the walk from node `k` reaches the nodes
/// that lead to a hit among the first `k + 1` nodes and have not been seen.
pub proof fn lemma_walk_leads(
    nodes: Seq<PathView>,
    patterns: Seq<Seq<char>>,
    seen: Seq<bool>,
    k: int,
    i: int,
)
    requires
        0 <= k < nodes.len(),
        0 <= i < nodes.len(),
        seen.len() == nodes.len(),
        forall|a: int| 0 <= a < nodes.len() ==> #[trigger] seen[a] == leads_to_hit(nodes, patterns, a, k),
        is_hit(nodes, patterns, k),
    ensures
        (seen[i] || climbs_to(parents_of(nodes), seen, k, i)) == leads_to_hit(
            nodes,
            patterns,
            i,
            k + 1,
        ),
{
    let parents = parents_of(nodes);
    assert(seen_upwards(parents, seen)) by {
        assert forall|a: int, b: int|
            0 <= a < seen.len() && seen[a] && #[trigger] on_chain(parents, b, a) implies seen[b] by {
            lemma_chain_bounds(parents, b, a);
            assert(seen[a] == leads_to_hit(nodes, patterns, a, k));
            lemma_leads_up(nodes, patterns, a, b, k);
            assert(seen[b] == leads_to_hit(nodes, patterns, b, k));
        }
    }
    lemma_climb(parents, seen, k, i);
    if on_chain(parents, i, k) {
        lemma_climb_or_seen(parents, seen, k, i);
    }
    lemma_leads_step(nodes, patterns, i, k);
    assert(seen[i] == leads_to_hit(nodes, patterns, i, k));
}

/// Matching all nodes against a reduction of the patterns of a query, after
/// every node has been hidden under its plain name, is filtering by that
/// query.
pub proof fn lemma_matched_is_filtered(
    nodes: Seq<PathView>,
    hidden: Seq<PathView>,
    reduced: Seq<Seq<char>>,
    query: Seq<char>,
    i: int,
)
    requires
        query.len() > 0,
        0 <= i < nodes.len(),
        is_reduction(reduced, query_patterns(query)),
        hidden.len() == nodes.len(),
        forall|l: int|
            0 <= l < nodes.len() ==> #[trigger] hidden[l] == (PathView {
                matched: false,
                match_text: nodes[l].segments.last(),
                ..nodes[l]
            }),
    ensures
        matched_node(hidden, reduced, i, nodes.len() as int) == filtered_node(nodes, query, i),
{
    let patterns = query_patterns(query);
    let n = nodes.len() as int;
    let name = nodes[i].segments.last();
    assert(parents_of(hidden) =~= parents_of(nodes));
    assert(hidden[i].joined == nodes[i].joined);
    lemma_reduction_matches(reduced, patterns, nodes[i].joined);
    if leads_to_hit(hidden, reduced, i, n) {
        let j = choose|j: int|
            0 <= j < n && j < hidden.len() && is_hit(hidden, reduced, j) && #[trigger] on_chain(
                parents_of(hidden),
                i,
                j,
            );
        assert(hidden[j].joined == nodes[j].joined);
        lemma_reduction_matches(reduced, patterns, nodes[j].joined);
        assert(on_chain(parents_of(nodes), i, j));
    }
    if leads_to_match(nodes, patterns, i) {
        let j = choose|j: int|
            0 <= j < nodes.len() && kept_match(nodes[j].joined, patterns) && #[trigger] on_chain(
                parents_of(nodes),
                i,
                j,
            );
        assert(hidden[j].joined == nodes[j].joined);
        lemma_reduction_matches(reduced, patterns, nodes[j].joined);
        assert(on_chain(parents_of(hidden), i, j));
    }
    assert forall|j: int| pattern_covers(name, reduced, j) == kept_covers(name, patterns, j) by {
        lemma_reduction_covers(reduced, patterns, name, j);
    }
    lemma_painted_by_coverage(
        name,
        pattern_cover(name, reduced),
        kept_cover(name, patterns),
        name.len() as int,
    );
}

} // verus!
