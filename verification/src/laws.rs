//! What holds of the tree and of the viewport whatever their state.

use crate::display::{
    children_follow, displayed, rows_below, rows_from, shown_children, Row, Segment,
};
use crate::link::{
    lemma_chain_bounds, lemma_linked_shape, lemma_nearest_before, linked, on_chain, parents_of,
    parents_precede, segments_of,
};
use crate::matching::{filtered, leads_to_match};
use crate::path::{fresh, is_proper_prefix, listed, PathView, ROOT, SEPARATOR};
use crate::patterns::{kept_match, query_patterns};
use crate::text::{join, lemma_join_prepend, lemma_split_join, lemma_split_on_has_pieces, split_on};
use crate::tree::{ancestors_shown, count_matched, count_selected, lemma_count_matched, Tree};
use crate::tui::{clamped, selected_names, selected_paths, TuiView};
use vstd::prelude::*;

verus! {

/// Under the empty query every node is shown, so that as many nodes are
/// shown as there are.
pub proof fn lemma_empty_filter_shows_all(nodes: Seq<PathView>)
    ensures
        forall|i: int| 0 <= i < nodes.len() ==> (#[trigger] filtered(nodes, Seq::empty())[i]).matched,
        count_matched(filtered(nodes, Seq::empty())) == nodes.len(),
{
    lemma_count_matched(filtered(nodes, Seq::empty()));
}

/// Under a query that no path name matches no node is shown, and nothing
/// is displayed.
pub proof fn lemma_no_match_shows_nothing(nodes: Seq<PathView>, query: Seq<char>, root: int)
    requires
        query.len() > 0,
        forall|j: int|
            0 <= j < nodes.len() ==> !kept_match((#[trigger] nodes[j]).joined, query_patterns(query)),
    ensures
        forall|i: int| 0 <= i < nodes.len() ==> !(#[trigger] filtered(nodes, query)[i]).matched,
        count_matched(filtered(nodes, query)) == 0,
        displayed(filtered(nodes, query), root, count_matched(filtered(nodes, query)) as int).len()
            == 0,
{
    let after = filtered(nodes, query);
    assert forall|i: int| 0 <= i < nodes.len() implies !(#[trigger] after[i]).matched by {
        if leads_to_match(nodes, query_patterns(query), i) {
            let j = choose|j: int|
                0 <= j < nodes.len() && kept_match(nodes[j].joined, query_patterns(query))
                    && #[trigger] on_chain(parents_of(nodes), i, j);
            assert(!kept_match(nodes[j].joined, query_patterns(query)));
        }
    }
    lemma_count_matched(after);
}

/// After filtering, whatever the query, the parent of every node that is
/// shown is shown: a node is never displayed below a node that is not.
pub proof fn lemma_filter_shows_ancestors(nodes: Seq<PathView>, query: Seq<char>)
    requires
        parents_precede(nodes, nodes.len() as int),
    ensures
        ancestors_shown(filtered(nodes, query)),
{
    let after = filtered(nodes, query);
    let patterns = query_patterns(query);
    let parents = parents_of(nodes);
    assert forall|i: int| 0 <= i < after.len() && (#[trigger] after[i]).matched implies (
    after[i].parent matches Some(p) ==> p < after.len() && after[p as int].matched) by {
        if let Some(p) = after[i].parent {
            assert(nodes[i].parent == Some(p));
            assert(p < i);
            if query.len() > 0 {
                let j = choose|j: int|
                    0 <= j < nodes.len() && kept_match(nodes[j].joined, patterns)
                        && #[trigger] on_chain(parents, i, j);
                assert(on_chain(parents, p as int, p as int));
                assert(on_chain(parents, p as int, i));
                crate::link::lemma_chain_transitive(parents, p as int, i, j);
                assert(leads_to_match(nodes, patterns, p as int));
            }
        }
    }
}

/// The children of every node come after it in the list, and name it as
/// their parent.
pub open spec fn tree_shaped(nodes: Seq<PathView>) -> bool {
    &&& nodes.len() <= usize::MAX
    &&& children_follow(nodes)
    &&& forall|p: int, j: int|
        0 <= p < nodes.len() && 0 <= j < nodes[p].children.len() ==> nodes[(
        #[trigger] nodes[p].children[j]) as int].parent == Some(p as usize)
}

/// Row `j` of `rows` shows node `k`.
pub open spec fn shows_at(rows: Seq<Row>, j: int, k: usize) -> bool {
    0 <= j < rows.len() && rows[j].node == k
}

/// Every row after the first of a display traversal shows a node that the
/// filter shows and whose parent is open and is shown on a row before it.
pub proof fn lemma_row_parent(nodes: Seq<PathView>, node: int, segments: Seq<Segment>, i: int)
    requires
        tree_shaped(nodes),
        0 <= node < nodes.len(),
        0 <= i < rows_from(nodes, node, segments).len(),
    ensures
        rows_from(nodes, node, segments)[0].node == node,
        i > 0 ==> {
            let k = rows_from(nodes, node, segments)[i].node as int;
            &&& k < nodes.len()
            &&& nodes[k].matched
            &&& nodes[k].parent matches Some(p) && nodes[p as int].open && exists|j: int|
                j < i && #[trigger] shows_at(rows_from(nodes, node, segments), j, p)
        },
    decreases nodes.len() - node, 1int, 0int,
{
    let rows = rows_from(nodes, node, segments);
    if i > 0 {
        let kids = shown_children(nodes, node);
        let below = rows_below(nodes, node, kids, 0, segments);
        lemma_row_parent_below(nodes, node, kids, 0, segments, i - 1);
        let k = below[i - 1].node as int;
        assert(rows[i] == below[i - 1]);
        let p = nodes[k].parent->0;
        if p == node {
            assert(shows_at(rows, 0, p));
        } else {
            let j = choose|j: int| j < i - 1 && #[trigger] shows_at(below, j, p);
            assert(shows_at(rows, j + 1, p));
        }
    }
}

/// Every row below an open node shows a node that the filter shows and
/// whose parent is open and is that node or is shown on a row before it.
pub proof fn lemma_row_parent_below(
    nodes: Seq<PathView>,
    parent: int,
    kids: Seq<usize>,
    from: int,
    segments: Seq<Segment>,
    i: int,
)
    requires
        tree_shaped(nodes),
        0 <= parent < nodes.len(),
        nodes[parent].open,
        kids == shown_children(nodes, parent),
        0 <= from,
        0 <= i < rows_below(nodes, parent, kids, from, segments).len(),
    ensures
        ({
            let rows = rows_below(nodes, parent, kids, from, segments);
            let k = rows[i].node as int;
            &&& k < nodes.len()
            &&& nodes[k].matched
            &&& nodes[k].parent matches Some(p) && nodes[p as int].open && (p == parent
                || exists|j: int| j < i && #[trigger] shows_at(rows, j, p))
        }),
    decreases nodes.len() - parent, 0int, kids.len() - from,
{
    let rows = rows_below(nodes, parent, kids, from, segments);
    let own = if from == kids.len() - 1 {
        Segment::End
    } else {
        Segment::Continuation
    };
    crate::display::lemma_shown_children_follow(nodes, parent, from);
    let kid = kids[from];
    lemma_shown_child_is_child(nodes, parent, from);
    let first = rows_from(nodes, kid as int, segments.push(own));
    let rest = rows_below(nodes, parent, kids, from + 1, segments);
    assert(rows == first + rest);
    if i < first.len() {
        lemma_row_parent(nodes, kid as int, segments.push(own), i);
        assert(rows[i] == first[i]);
        if i > 0 {
            let k = first[i].node as int;
            let p = nodes[k].parent->0;
            let j = choose|j: int| j < i && #[trigger] shows_at(first, j, p);
            assert(shows_at(rows, j, p));
        }
    } else {
        lemma_row_parent_below(nodes, parent, kids, from + 1, segments, i - first.len());
        let k = rest[i - first.len()].node as int;
        assert(rows[i] == rest[i - first.len()]);
        let p = nodes[k].parent->0;
        if p != parent {
            let j = choose|j: int| j < i - first.len() && #[trigger] shows_at(rest, j, p);
            assert(shows_at(rows, j + first.len(), p));
        }
    }
}

/// A child that is shown is a child: it names the node as its parent.
pub proof fn lemma_shown_child_is_child(nodes: Seq<PathView>, p: int, j: int)
    requires
        tree_shaped(nodes),
        0 <= p < nodes.len(),
        0 <= j < shown_children(nodes, p).len(),
    ensures
        nodes[shown_children(nodes, p)[j] as int].parent == Some(p as usize),
{
    let keep = |c: usize| c < nodes.len() && nodes[c as int].matched;
    let kids = nodes[p].children;
    let c = kids.filter(keep)[j];
    assert(kids.filter(keep).contains(c));
    kids.lemma_filter_contains_rev(keep, c);
    let at = choose|at: int| 0 <= at < kids.len() && kids[at] == c;
    assert(nodes[kids[at] as int].parent == Some(p as usize));
}

/// A node that is displayed has no closed node above it, up to the node
/// at which the display starts: all that lies below a closed node, at
/// whatever depth, is left out of the display until the node is opened.
pub proof fn lemma_closed_hides_descendants(
    nodes: Seq<PathView>,
    root: int,
    segments: Seq<Segment>,
    above: int,
    i: int,
)
    requires
        tree_shaped(nodes),
        0 <= root < nodes.len(),
        0 <= i < rows_from(nodes, root, segments).len(),
        root <= above,
        on_chain(parents_of(nodes), above, rows_from(nodes, root, segments)[i].node as int),
        above != rows_from(nodes, root, segments)[i].node,
    ensures
        nodes[above].open,
    decreases i,
{
    let parents = parents_of(nodes);
    let rows = rows_from(nodes, root, segments);
    let k = rows[i].node as int;
    lemma_row_parent(nodes, root, segments, i);
    lemma_chain_bounds(parents, above, k);
    if i > 0 {
        let p = nodes[k].parent->0;
        assert(parents[k] == Some(p));
        if above != p {
            let j = choose|j: int| j < i && #[trigger] shows_at(rows, j, p);
            lemma_closed_hides_descendants(nodes, root, segments, above, j);
        }
    }
}

/// No line of a tree shows a node below a closed node.
pub proof fn lemma_displayed_below_open(tree: Tree, i: int, above: int)
    requires
        tree.wf(),
        0 <= i < tree.rows().len(),
        on_chain(parents_of(tree.nodes()), above, tree.rows()[i].node as int),
        above != tree.rows()[i].node,
    ensures
        tree.nodes()[above].open,
{
    lemma_linked_shape(tree.nodes());
    lemma_chain_bounds(parents_of(tree.nodes()), above, tree.rows()[i].node as int);
    lemma_closed_hides_descendants(tree.nodes(), tree.tree as int, Seq::empty(), above, i);
}

/// The rows of a display traversal depend on which nodes are open, which
/// are shown and which are the children of which, and on nothing else.
pub proof fn lemma_rows_same(
    a: Seq<PathView>,
    b: Seq<PathView>,
    node: int,
    segments: Seq<Segment>,
)
    requires
        a.len() == b.len(),
        forall|i: int|
            0 <= i < a.len() ==> (#[trigger] a[i]).open == b[i].open && a[i].matched
                == b[i].matched && a[i].children == b[i].children,
    ensures
        rows_from(a, node, segments) == rows_from(b, node, segments),
    decreases a.len() - node, 1int, 0int,
{
    if 0 <= node < a.len() {
        assert(a[node].open == b[node].open);
        lemma_shown_children_same(a, b, node);
        lemma_rows_below_same(a, b, node, shown_children(a, node), 0, segments);
    }
}

/// The children of a node that are shown are the same in lists that show
/// the same nodes.
pub proof fn lemma_shown_children_same(a: Seq<PathView>, b: Seq<PathView>, p: int)
    requires
        a.len() == b.len(),
        0 <= p < a.len(),
        forall|i: int|
            0 <= i < a.len() ==> (#[trigger] a[i]).open == b[i].open && a[i].matched
                == b[i].matched && a[i].children == b[i].children,
    ensures
        shown_children(a, p) == shown_children(b, p),
{
    let fa = |c: usize| c < a.len() && a[c as int].matched;
    let fb = |c: usize| c < b.len() && b[c as int].matched;
    assert forall|c: usize| #[trigger] fa(c) == fb(c) by {
        if c < a.len() {
            assert(a[c as int].matched == b[c as int].matched);
        }
    }
    assert(fa =~= fb);
    assert(a[p].children == b[p].children);
}

/// The rows below a node are the same in lists that show and open the
/// same nodes.
pub proof fn lemma_rows_below_same(
    a: Seq<PathView>,
    b: Seq<PathView>,
    parent: int,
    kids: Seq<usize>,
    from: int,
    segments: Seq<Segment>,
)
    requires
        a.len() == b.len(),
        forall|i: int|
            0 <= i < a.len() ==> (#[trigger] a[i]).open == b[i].open && a[i].matched
                == b[i].matched && a[i].children == b[i].children,
    ensures
        rows_below(a, parent, kids, from, segments) == rows_below(b, parent, kids, from, segments),
    decreases a.len() - parent, 0int, kids.len() - from,
{
    if 0 <= from < kids.len() {
        let own = if from == kids.len() - 1 {
            Segment::End
        } else {
            Segment::Continuation
        };
        if parent < kids[from] < a.len() {
            lemma_rows_same(a, b, kids[from] as int, segments.push(own));
        }
        lemma_rows_below_same(a, b, parent, kids, from + 1, segments);
    }
}

/// Selecting the node of a displayed line and then selecting it again
/// leaves every node as it was, and each time the number of selected nodes
/// changes by exactly one.
pub proof fn lemma_flip_selected_twice(tree: Tree, once: Tree, i: usize)
    requires
        tree.wf(),
        once.nodes() == tree.selected_flipped(i),
        once.tree == tree.tree,
        once.n_matches == tree.n_matches,
    ensures
        once.rows() == tree.rows(),
        once.selected_flipped(i) == tree.nodes(),
        i < tree.rows().len() ==> count_selected(once.nodes()) == count_selected(tree.nodes()) + (
        if tree.nodes()[tree.rows()[i as int].node as int].selected {
            -1int
        } else {
            1int
        }),
        i >= tree.rows().len() ==> count_selected(once.nodes()) == count_selected(tree.nodes()),
{
    let a = tree.nodes();
    let b = once.nodes();
    if i < tree.rows().len() {
        crate::display::lemma_rows_in_list(a, tree.tree as int, Seq::empty(), i as int);
    }
    assert(a.len() == b.len());
    assert forall|j: int| 0 <= j < a.len() implies (#[trigger] a[j]).open == b[j].open
        && a[j].matched == b[j].matched && a[j].children == b[j].children by {}
    lemma_rows_same(a, b, tree.tree as int, Seq::empty());
    if i < tree.rows().len() {
        lemma_linked_shape(a);
        crate::display::lemma_rows_in_list(a, tree.tree as int, Seq::empty(), i as int);
        let k = tree.rows()[i as int].node as int;
        assert(once.selected_flipped(i) =~= a);
        lemma_count_selected_flip(a, k);
    } else {
        assert(once.selected_flipped(i) =~= a);
    }
}

/// Selecting a node that is not selected adds one to the number of
/// selected nodes, and taking one out of the selection takes one off.
pub proof fn lemma_count_selected_flip(nodes: Seq<PathView>, k: int)
    requires
        0 <= k < nodes.len(),
    ensures
        count_selected(
            nodes.update(k, PathView { selected: !nodes[k].selected, ..nodes[k] }),
        ) == count_selected(nodes) + (if nodes[k].selected {
            -1int
        } else {
            1int
        }),
    decreases nodes.len(),
{
    let flipped = nodes.update(k, PathView { selected: !nodes[k].selected, ..nodes[k] });
    if k == nodes.len() - 1 {
        assert(flipped.drop_last() =~= nodes.drop_last());
    } else {
        lemma_count_selected_flip(nodes.drop_last(), k);
        assert(flipped.drop_last() =~= nodes.drop_last().update(
            k,
            PathView { selected: !nodes[k].selected, ..nodes[k] },
        ));
    }
}

/// The number of selected nodes counts no node twice: it is no greater
/// than the number of nodes, and it is zero exactly if no node is
/// selected.
pub proof fn lemma_count_selected(nodes: Seq<PathView>)
    ensures
        count_selected(nodes) <= nodes.len(),
        (forall|i: int| 0 <= i < nodes.len() ==> !(#[trigger] nodes[i]).selected)
            <==> count_selected(nodes) == 0,
    decreases nodes.len(),
{
    if nodes.len() > 0 {
        let fewer = nodes.drop_last();
        lemma_count_selected(fewer);
        assert(forall|i: int| 0 <= i < fewer.len() ==> fewer[i] == nodes[i]);
        if count_selected(nodes) == 0 {
            assert forall|i: int| 0 <= i < nodes.len() implies !(#[trigger] nodes[i]).selected by {
                if i < fewer.len() {
                    assert(!fewer[i].selected);
                }
            }
        }
    }
}

/// When the query has changed and fewer lines are left than the index of
/// the current line asks for, the current line is afterwards one of the
/// lines that are left.
pub proof fn lemma_clamped_in_view(ui: TuiView, count: usize)
    requires
        ui.wf(),
        ui.in_view(),
        ui.chars_changed,
        0 < count <= ui.index(),
    ensures
        clamped(ui, count).wf(),
        clamped(ui, count).index() < count,
{
}

/// In a linked list of nodes the parent of a node is the nearest node
/// before it whose components are a proper prefix of its own: none of the
/// nodes between the two has such components, and a node without a parent
/// has no such node before it.
pub proof fn lemma_parent_is_nearest_prefix(nodes: Seq<PathView>, i: int, j: int)
    requires
        linked(nodes),
        nodes.len() <= usize::MAX,
        0 <= j < i < nodes.len(),
    ensures
        match nodes[i].parent {
            Some(k) => k < i && is_proper_prefix(nodes[k as int].segments, nodes[i].segments) && (k
                < j ==> !is_proper_prefix(nodes[j].segments, nodes[i].segments)),
            None => !is_proper_prefix(nodes[j].segments, nodes[i].segments),
        },
{
    lemma_nearest_before(segments_of(nodes), i, i, j);
    assert(parents_of(nodes)[i] == nodes[i].parent);
}

/// The path names of the selection up to a node are none before the only
/// node that is selected, and its path name from there on.
pub proof fn lemma_single_selection_upto(nodes: Seq<PathView>, k: int, upto: int)
    requires
        0 <= k < nodes.len(),
        0 <= upto <= nodes.len(),
        forall|i: int| 0 <= i < nodes.len() ==> (#[trigger] nodes[i]).selected == (i == k),
    ensures
        selected_paths(nodes, upto) == if upto <= k {
            Seq::<Seq<char>>::empty()
        } else {
            seq![nodes[k].joined]
        },
    decreases upto,
{
    if upto > 0 {
        lemma_single_selection_upto(nodes, k, upto - 1);
        assert(nodes[upto - 1].selected == (upto - 1 == k));
        if upto - 1 == k {
            assert(Seq::<Seq<char>>::empty().push(nodes[k].joined) =~= seq![nodes[k].joined]);
        }
    }
}

/// When a single node is selected, the output of the session is the path
/// name of that node and nothing else.
pub proof fn lemma_single_selection(nodes: Seq<PathView>, k: int)
    requires
        0 <= k < nodes.len(),
        forall|i: int| 0 <= i < nodes.len() ==> (#[trigger] nodes[i]).selected == (i == k),
    ensures
        selected_names(nodes) == nodes[k].joined,
{
    lemma_single_selection_upto(nodes, k, nodes.len() as int);
}

/// The path name of a node is its components joined by the separator, for
/// a node made of a path name and for the node of an entry of a listing.
pub proof fn lemma_joined_is_rejoined(name: Seq<char>, is_dir: bool)
    ensures
        join(fresh(name, is_dir).segments, SEPARATOR) == fresh(name, is_dir).joined,
        join(listed(name, is_dir).segments, SEPARATOR) == listed(name, is_dir).joined,
{
    lemma_split_join(name, SEPARATOR);
    lemma_split_on_has_pieces(name, SEPARATOR);
    lemma_join_prepend(ROOT@, split_on(name, SEPARATOR), SEPARATOR);
}

} // verus!
