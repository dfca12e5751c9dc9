//! Linking: which parent each node of a sorted list gets, and what follows
//! from it for the shape of the tree.

use crate::display::children_follow;
use crate::path::{is_proper_prefix, Path, PathBehaviour, PathView};
use crate::tree::all_named;
use vstd::prelude::*;

verus! {

/// The components of every node, by index.
pub open spec fn segments_of(nodes: Seq<PathView>) -> Seq<Seq<Seq<char>>> {
    Seq::new(nodes.len(), |i: int| nodes[i].segments)
}

/// The parent of every node, by index.
pub open spec fn parents_of(nodes: Seq<PathView>) -> Seq<Option<usize>> {
    Seq::new(nodes.len(), |i: int| nodes[i].parent)
}

/// Every node that has a parent comes after it.
pub open spec fn parents_precede(nodes: Seq<PathView>, k: int) -> bool {
    forall|i: int|
        0 <= i < k && i < nodes.len() ==> ((#[trigger] nodes[i]).parent matches Some(q) ==> q < i)
}

/// `ancestor` is `node` itself or lies on the chain of parents above it.
pub open spec fn on_chain(parents: Seq<Option<usize>>, ancestor: int, node: int) -> bool
    decreases node,
{
    if node < 0 || node >= parents.len() {
        false
    } else if ancestor == node {
        true
    } else {
        match parents[node] {
            Some(p) => p < node && on_chain(parents, ancestor, p as int),
            None => false,
        }
    }
}

/// The nearest node before `below` whose components are a proper prefix
/// of those of node `i`, if there is one.
pub open spec fn nearest_before(segs: Seq<Seq<Seq<char>>>, i: int, below: int) -> Option<usize>
    decreases below,
{
    if below <= 0 {
        None
    } else if is_proper_prefix(segs[below - 1], segs[i]) {
        Some((below - 1) as usize)
    } else {
        nearest_before(segs, i, below - 1)
    }
}

/// The parent that linking gives to every node: the nearest node before it
/// whose components are a proper prefix of its own. A node that no node
/// before it is a prefix of, as the first node, has none.
pub open spec fn linked_parents(segs: Seq<Seq<Seq<char>>>) -> Seq<Option<usize>> {
    Seq::new(segs.len(), |i: int| nearest_before(segs, i, i))
}

/// The nodes below index `k` whose parent is `p`, in ascending order.
pub open spec fn children_upto(parents: Seq<Option<usize>>, p: usize, k: int) -> Seq<usize>
    decreases k,
{
    if k <= 0 {
        Seq::empty()
    } else {
        let before = children_upto(parents, p, k - 1);
        if parents[k - 1] == Some(p) {
            before.push((k - 1) as usize)
        } else {
            before
        }
    }
}

/// The parent and child relations of `nodes` are those that linking gives
/// to their components: the parent of every node is the nearest node
/// before it whose components are a proper prefix of its own, and the
/// children of a node are the nodes of which it is the parent, in the
/// order of the list.
pub open spec fn linked(nodes: Seq<PathView>) -> bool {
    &&& nodes.len() > 0
    &&& parents_of(nodes) == linked_parents(segments_of(nodes))
    &&& forall|p: int|
        0 <= p < nodes.len() ==> #[trigger] nodes[p].children == children_upto(
            parents_of(nodes),
            p as usize,
            nodes.len() as int,
        )
}

/// `after` is `before` but for its parent and its children.
pub open spec fn same_but_links(before: PathView, after: PathView) -> bool {
    after == (PathView { parent: after.parent, children: after.children, ..before })
}

/// No node has a parent or a child.
pub open spec fn unlinked(nodes: Seq<PathView>) -> bool {
    forall|i: int|
        0 <= i < nodes.len() ==> (#[trigger] nodes[i]).parent is None && nodes[i].children.len()
            == 0
}

/// `after` has the nodes of `before`, each unchanged but for its parent and
/// its children.
pub open spec fn relinked(before: Seq<PathView>, after: Seq<PathView>) -> bool {
    &&& after.len() == before.len()
    &&& forall|i: int| 0 <= i < before.len() ==> same_but_links(before[i], #[trigger] after[i])
}

/// The flags that decide what is displayed, and the links, are the same in
/// both lists.
pub open spec fn same_shape(a: Seq<PathView>, b: Seq<PathView>) -> bool {
    &&& a.len() == b.len()
    &&& forall|i: int|
        0 <= i < a.len() ==> (#[trigger] a[i]).segments == b[i].segments && a[i].parent
            == b[i].parent && a[i].children == b[i].children
}

/// Entry `m` of `gaps`, for each of the first `k` nodes that has a parent,
/// is no greater than the number of components of any node between that
/// parent and node `m`.
pub open spec fn gaps_bound(nodes: Seq<PathView>, gaps: Seq<usize>, k: int) -> bool {
    forall|m: int, j: int|
        0 <= m < k && m < gaps.len() && m < nodes.len() && 0 <= j < m ==> (nodes[m].parent matches Some(
            p,
        ) ==> (p < j ==> #[trigger] gaps[m] <= (#[trigger] nodes[j]).segments.len()))
}

/// Goes back from node `k` and returns the first node whose components
/// are a proper prefix of those of node `k`, and with it a number that is
/// no greater than the number of components of any node between the two.
///
/// The search steps from a node to its parent where `gaps` shows that no
/// node between them has fewer components than node `k`, so that none of
/// them can hold a proper prefix.
pub(crate) fn find_base(paths: &Vec<Path>, gaps: &Vec<usize>, k: usize) -> (found: (
    Option<usize>,
    usize,
))
    requires
        k < paths.len(),
        gaps.len() == k,
        parents_precede(paths.deep_view(), k as int),
        gaps_bound(paths.deep_view(), gaps@, k as int),
    ensures
        found.0 == nearest_before(segments_of(paths.deep_view()), k as int, k as int),
        forall|j: int|
            found.0 matches Some(p) && p < j < k ==> found.1 <= (#[trigger] paths.deep_view()[j]).segments.len(),
{
    let ghost nodes = paths.deep_view();
    let ghost segs = segments_of(nodes);
    let depth = paths[k].len();
    assert(segs[k as int] == paths[k as int]@.segments);
    let mut low: usize = usize::MAX;
    let mut below: usize = k;
    while below > 0
        invariant
            below <= k < paths.len(),
            gaps.len() == k,
            nodes == paths.deep_view(),
            segs == segments_of(nodes),
            depth == segs[k as int].len(),
            parents_precede(nodes, k as int),
            gaps_bound(nodes, gaps@, k as int),
            nearest_before(segs, k as int, below as int) == nearest_before(segs, k as int, k as int),
            forall|j: int| below <= j < k ==> low <= (#[trigger] nodes[j]).segments.len(),
        decreases below,
    {
        let cur = below - 1;
        assert(segs[cur as int] == paths[cur as int]@.segments);
        assert(nodes[cur as int] == paths[cur as int]@);
        if paths[k].is_child_of(&paths[cur]) {
            return (Some(cur), low);
        }
        let d = paths[cur].len();
        if d < low {
            low = d;
        }
        let mut next = cur;
        if let Some(p) = paths[cur].parent {
            let gap = gaps[cur];
            if depth <= gap {
                if gap < low {
                    low = gap;
                }
                proof {
                    assert forall|j: int| p < j < below implies !is_proper_prefix(
                        segs[j],
                        segs[k as int],
                    ) by {
                        if j < cur {
                            assert(gaps@[cur as int] <= nodes[j].segments.len());
                            assert(segs[j] == nodes[j].segments);
                        }
                    }
                    lemma_nearest_before_skip(segs, k as int, p + 1, below as int);
                    assert forall|j: int| p < j < k implies low <= (#[trigger] nodes[j]).segments.len() by {
                        if j < cur {
                            assert(gaps@[cur as int] <= nodes[j].segments.len());
                        }
                    }
                }
                next = p + 1;
            }
        }
        below = next;
    }
    (None, low)
}

/// A node on the chain of `node` is `node` or comes before it.
pub proof fn lemma_chain_bounds(parents: Seq<Option<usize>>, ancestor: int, node: int)
    requires
        on_chain(parents, ancestor, node),
    ensures
        0 <= ancestor <= node < parents.len(),
    decreases node,
{
    if ancestor != node {
        if let Some(p) = parents[node] {
            lemma_chain_bounds(parents, ancestor, p as int);
        }
    }
}

/// The chain of a node holds the chains of the nodes on it.
pub proof fn lemma_chain_transitive(parents: Seq<Option<usize>>, a: int, b: int, c: int)
    requires
        on_chain(parents, a, b),
        on_chain(parents, b, c),
    ensures
        on_chain(parents, a, c),
    decreases c,
{
    if b != c {
        if let Some(p) = parents[c] {
            lemma_chain_transitive(parents, a, b, p as int);
        }
    }
}

/// What `nearest_before` finds is a proper prefix, and no node between it
/// and `below` is one; where it finds nothing, no node before `below` is
/// one.
pub proof fn lemma_nearest_before(segs: Seq<Seq<Seq<char>>>, i: int, below: int, j: int)
    requires
        below <= usize::MAX,
    ensures
        nearest_before(segs, i, below) matches Some(k) ==> 0 <= k < below && is_proper_prefix(
            segs[k as int],
            segs[i],
        ) && (k < j < below ==> !is_proper_prefix(segs[j], segs[i])),
        nearest_before(segs, i, below) is None ==> (0 <= j < below ==> !is_proper_prefix(
            segs[j],
            segs[i],
        )),
    decreases below,
{
    if below > 0 && !is_proper_prefix(segs[below - 1], segs[i]) {
        lemma_nearest_before(segs, i, below - 1, j);
    }
}

/// The search passes over a run of nodes none of which has components
/// that are a proper prefix of those of node `i`.
pub proof fn lemma_nearest_before_skip(segs: Seq<Seq<Seq<char>>>, i: int, lo: int, hi: int)
    requires
        0 <= lo <= hi,
        forall|j: int| lo <= j < hi ==> !is_proper_prefix(#[trigger] segs[j], segs[i]),
    ensures
        nearest_before(segs, i, hi) == nearest_before(segs, i, lo),
    decreases hi - lo,
{
    if lo < hi {
        assert(!is_proper_prefix(segs[hi - 1], segs[i]));
        lemma_nearest_before_skip(segs, i, lo, hi - 1);
    }
}

/// The children below `k` depend only on the parents of the nodes below `k`.
pub proof fn lemma_children_upto_prefix(
    a: Seq<Option<usize>>,
    b: Seq<Option<usize>>,
    p: usize,
    k: int,
)
    requires
        k <= a.len(),
        k <= b.len(),
        forall|j: int| 0 <= j < k ==> a[j] == b[j],
    ensures
        children_upto(a, p, k) == children_upto(b, p, k),
    decreases k,
{
    if k > 0 {
        lemma_children_upto_prefix(a, b, p, k - 1);
    }
}

/// The children below `k` of node `p` are the nodes below `k` whose parent
/// is `p`, in ascending order.
pub proof fn lemma_children_upto(parents: Seq<Option<usize>>, p: usize, k: int)
    requires
        0 <= k <= parents.len() <= usize::MAX,
    ensures
        forall|j: int|
            0 <= j < children_upto(parents, p, k).len() ==> (#[trigger] children_upto(
                parents,
                p,
                k,
            )[j]) < k && parents[children_upto(parents, p, k)[j] as int] == Some(p),
        forall|i: int, j: int|
            0 <= i < j < children_upto(parents, p, k).len() ==> children_upto(parents, p, k)[i]
                < children_upto(parents, p, k)[j],
        forall|c: int|
            0 <= c < k && parents[c] == Some(p) ==> children_upto(parents, p, k).contains(
                c as usize,
            ),
    decreases k,
{
    if k > 0 {
        lemma_children_upto(parents, p, k - 1);
        let before = children_upto(parents, p, k - 1);
        let now = children_upto(parents, p, k);
        assert forall|c: int| 0 <= c < k && parents[c] == Some(p) implies now.contains(
            c as usize,
        ) by {
            if c < k - 1 {
                assert(before.contains(c as usize));
                let j = choose|j: int| 0 <= j < before.len() && before[j] == c as usize;
                assert(now[j] == c as usize);
            } else {
                assert(now[now.len() - 1] == c as usize);
            }
        }
    }
}

/// In a linked list of nodes the first node has no parent, every parent
/// comes before its child and holds a proper prefix of its components,
/// and the children of a node are the nodes of which it is the parent, in
/// the order of the list.
pub proof fn lemma_linked_shape(nodes: Seq<PathView>)
    requires
        linked(nodes),
        nodes.len() <= usize::MAX,
    ensures
        nodes[0].parent is None,
        parents_precede(nodes, nodes.len() as int),
        children_follow(nodes),
        forall|i: int|
            0 <= i < nodes.len() ==> ((#[trigger] nodes[i]).parent matches Some(q)
                ==> is_proper_prefix(nodes[q as int].segments, nodes[i].segments)),
        forall|p: int, j: int|
            0 <= p < nodes.len() && 0 <= j < nodes[p].children.len() ==> nodes[(
            #[trigger] nodes[p].children[j]) as int].parent == Some(p as usize),
        forall|p: int, i: int, j: int|
            0 <= p < nodes.len() && 0 <= i < j < nodes[p].children.len() ==> (
            #[trigger] nodes[p].children[i]) < (#[trigger] nodes[p].children[j]),
{
    let n = nodes.len() as int;
    let segs = segments_of(nodes);
    let parents = parents_of(nodes);
    assert(parents[0] == nodes[0].parent);
    assert forall|i: int| 0 <= i < n implies ((#[trigger] nodes[i]).parent matches Some(q) ==> q < i
        && is_proper_prefix(nodes[q as int].segments, nodes[i].segments)) by {
        lemma_nearest_before(segs, i, i, 0);
        assert(parents[i] == nodes[i].parent);
    }
    assert forall|p: int, j: int|
        0 <= p < nodes.len() && 0 <= j < nodes[p].children.len() implies p < (
    #[trigger] nodes[p].children[j]) < nodes.len() && nodes[nodes[p].children[j] as int].parent
        == Some(p as usize) by {
        lemma_children_upto(parents, p as usize, n);
        let c = nodes[p].children[j];
        assert(c == children_upto(parents, p as usize, n)[j]);
        assert(parents[c as int] == nodes[c as int].parent);
    }
    assert forall|p: int, i: int, j: int|
        0 <= p < nodes.len() && 0 <= i < j < nodes[p].children.len() implies (
    #[trigger] nodes[p].children[i]) < (#[trigger] nodes[p].children[j]) by {
        lemma_children_upto(parents, p as usize, n);
    }
}

/// Lists with the same components and links are linked alike.
pub proof fn lemma_linked_same_shape(a: Seq<PathView>, b: Seq<PathView>)
    requires
        same_shape(a, b),
        linked(a),
    ensures
        linked(b),
        all_named(a) ==> all_named(b),
{
    assert(segments_of(a) =~= segments_of(b));
    assert(parents_of(a) =~= parents_of(b));
    assert forall|p: int| 0 <= p < b.len() implies #[trigger] b[p].children == children_upto(
        parents_of(b),
        p as usize,
        b.len() as int,
    ) by {
        assert(a[p].children == b[p].children);
    }
    if all_named(a) {
        assert forall|i: int| 0 <= i < b.len() implies (#[trigger] b[i]).segments.len() > 0 by {
            assert(a[i].segments.len() > 0);
        }
    }
}

} // verus!
