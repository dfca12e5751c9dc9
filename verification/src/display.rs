//! The display traversal: which nodes are shown, in which order, and the
//! line that shows each of them.

use crate::path::{Path, PathView};
use vstd::prelude::*;

verus! {

/// The glyph before the name of an open directory.
pub const DIR_OPEN: &'static str = "\u{f07c}  ";

/// The glyph before the name of a closed directory.
pub const DIR_CLOSED: &'static str = "\u{f07b}  ";

/// The mark in front of the line of a selected node.
pub const SELECTED: &'static str = "\u{1b}[38;5;9m>\u{1b}[39m";

/// The mark in front of the line of a node that is not selected.
pub const UNSELECTED: &'static str = " ";

/// Below an ancestor that has further siblings.
pub const STEM_CONTINUATION: &'static str = "\u{2502}   ";

/// Below an ancestor that is the last of its siblings.
pub const STEM_END: &'static str = "    ";

/// In front of a node that has further siblings.
pub const BRANCH_CONTINUATION: &'static str = "\u{251c}\u{2500}\u{2500} ";

/// In front of a node that is the last of its siblings.
pub const BRANCH_END: &'static str = "\u{2514}\u{2500}\u{2500} ";

/// Whether a node on the way from the root to a displayed node has further
/// displayed siblings after it.
#[derive(Clone, Copy, PartialEq, Eq, Debug)]
pub enum Segment {
    /// Further siblings follow.
    Continuation,
    /// The last of its siblings.
    End,
}

/// One displayed line: the node it shows and, for each level below the
/// root, the segment of the ancestor at that level, the node's own last.
pub struct Row {
    pub node: usize,
    pub segments: Seq<Segment>,
}

/// The text that a segment contributes to the lines of its descendants.
pub open spec fn stem(segment: Segment) -> Seq<char> {
    match segment {
        Segment::Continuation => STEM_CONTINUATION@,
        Segment::End => STEM_END@,
    }
}

/// The text that a segment contributes to the line of its own node.
pub open spec fn branch(segment: Segment) -> Seq<char> {
    match segment {
        Segment::Continuation => BRANCH_CONTINUATION@,
        Segment::End => BRANCH_END@,
    }
}

/// The stems of `segments`, laid end to end.
pub open spec fn stems(segments: Seq<Segment>) -> Seq<char>
    decreases segments.len(),
{
    if segments.len() == 0 {
        Seq::empty()
    } else {
        stems(segments.drop_last()) + stem(segments.last())
    }
}

/// The connector in front of a node: a stem for each ancestor below the
/// root, then the branch of the node itself. The root has none.
pub open spec fn connector(segments: Seq<Segment>) -> Seq<char> {
    if segments.len() == 0 {
        Seq::empty()
    } else {
        stems(segments.drop_last()) + branch(segments.last())
    }
}

/// The glyph in front of the name of a node: none for a file.
pub open spec fn glyph(node: PathView) -> Seq<char> {
    if node.is_dir {
        if node.open {
            DIR_OPEN@
        } else {
            DIR_CLOSED@
        }
    } else {
        Seq::empty()
    }
}

/// The mark that tells whether a node is selected.
pub open spec fn selection_mark(node: PathView) -> Seq<char> {
    if node.selected {
        SELECTED@
    } else {
        UNSELECTED@
    }
}

/// The line that shows `node` below ancestors with the given segments.
pub open spec fn line_of(node: PathView, segments: Seq<Segment>) -> Seq<char> {
    selection_mark(node) + connector(segments) + glyph(node) + node.match_text
}

/// Every child has a greater index than its parent and lies in the list.
pub open spec fn children_follow(nodes: Seq<PathView>) -> bool {
    forall|p: int, j: int|
        0 <= p < nodes.len() && 0 <= j < nodes[p].children.len() ==> p < (
        #[trigger] nodes[p].children[j]) < nodes.len()
}

/// The children of node `p` that the filter shows, in their stored order.
pub open spec fn shown_children(nodes: Seq<PathView>, p: int) -> Seq<usize> {
    nodes[p].children.filter(|c: usize| c < nodes.len() && nodes[c as int].matched)
}

/// The rows of the display traversal that starts at `node`: the node
/// itself, then, if it is open, the rows of its shown children in turn.
pub open spec fn rows_from(nodes: Seq<PathView>, node: int, segments: Seq<Segment>) -> Seq<Row>
    decreases nodes.len() - node, 1int, 0int,
{
    if node < 0 || node >= nodes.len() {
        Seq::empty()
    } else if nodes[node].open {
        seq![Row { node: node as usize, segments }] + rows_below(
            nodes,
            node,
            shown_children(nodes, node),
            0,
            segments,
        )
    } else {
        seq![Row { node: node as usize, segments }]
    }
}

/// The rows of the children `kids[from..]` of `parent`, each with the
/// segments of `parent` and its own: `End` for the last child,
/// `Continuation` for the others.
pub open spec fn rows_below(
    nodes: Seq<PathView>,
    parent: int,
    kids: Seq<usize>,
    from: int,
    segments: Seq<Segment>,
) -> Seq<Row>
    decreases nodes.len() - parent, 0int, kids.len() - from,
{
    if from < 0 || from >= kids.len() {
        Seq::empty()
    } else {
        let own = if from == kids.len() - 1 {
            Segment::End
        } else {
            Segment::Continuation
        };
        let first = if parent < kids[from] < nodes.len() {
            rows_from(nodes, kids[from] as int, segments.push(own))
        } else {
            Seq::empty()
        };
        first + rows_below(nodes, parent, kids, from + 1, segments)
    }
}

/// The lines of `rows`, in order.
pub open spec fn lines_of(nodes: Seq<PathView>, rows: Seq<Row>) -> Seq<Seq<char>> {
    Seq::new(rows.len(), |i: int| line_of(nodes[rows[i].node as int], rows[i].segments))
}

/// The nodes of `rows`, in order.
pub open spec fn nodes_of(rows: Seq<Row>) -> Seq<usize> {
    Seq::new(rows.len(), |i: int| rows[i].node)
}

/// The rows that are displayed for a tree rooted at `root` of which `len`
/// nodes are shown: the display traversal that starts at the root, if the
/// root is shown; none if it is not, and none if `len` is zero.
pub open spec fn displayed(nodes: Seq<PathView>, root: int, len: int) -> Seq<Row> {
    if len > 0 && 0 <= root < nodes.len() && nodes[root].matched {
        rows_from(nodes, root, Seq::empty())
    } else {
        Seq::empty()
    }
}

/// The connector that `segments` put in front of a node.
pub fn segments_to_string(segments: &Vec<Segment>) -> (s: String)
    ensures
        s@ == connector(segments@),
{
    let mut s = String::new();
    if segments.len() == 0 {
        return s;
    }
    let last: usize = segments.len() - 1;
    let mut i: usize = 0;
    while i < last
        invariant
            i <= last,
            last == segments.len() - 1,
            s@ == stems(segments@.take(i as int)),
        decreases last - i,
    {
        assert(segments@.take(i + 1).drop_last() =~= segments@.take(i as int));
        match segments[i] {
            Segment::Continuation => s.append(STEM_CONTINUATION),
            Segment::End => s.append(STEM_END),
        }
        i += 1;
    }
    assert(segments@.take(last as int) =~= segments@.drop_last());
    match segments[last] {
        Segment::Continuation => s.append(BRANCH_CONTINUATION),
        Segment::End => s.append(BRANCH_END),
    }
    s
}

/// The line that shows `node` below ancestors with the given segments.
pub(crate) fn render_line(node: &Path, segments: &Vec<Segment>) -> (line: String)
    ensures
        line@ == line_of(node@, segments@),
{
    let mut line = String::new();
    if node.selected {
        line.append(SELECTED);
    } else {
        line.append(UNSELECTED);
    }
    let connector = segments_to_string(segments);
    line.append(connector.as_str());
    if node.is_dir {
        if node.open {
            line.append(DIR_OPEN);
        } else {
            line.append(DIR_CLOSED);
        }
    }
    line.append(node.match_text.as_str());
    assert(line@ =~= line_of(node@, segments@));
    line
}

/// The children of node `p` that the filter shows.
pub(crate) fn matched_children(paths: &Vec<Path>, p: usize) -> (kids: Vec<usize>)
    requires
        p < paths.len(),
    ensures
        kids@ == shown_children(paths.deep_view(), p as int),
{
    let ghost nodes = paths.deep_view();
    let ghost keep = |c: usize| c < nodes.len() && nodes[c as int].matched;
    let mut kids: Vec<usize> = Vec::new();
    let mut i: usize = 0;
    assert(nodes[p as int].children == paths[p as int].children@);
    assert(paths[p as int].children@.take(0).filter(keep) =~= Seq::empty()) by {
        assert(paths[p as int].children@.take(0) =~= Seq::empty());
    }
    while i < paths[p].children.len()
        invariant
            p < paths.len(),
            i <= paths[p as int].children.len(),
            nodes == paths.deep_view(),
            keep == |c: usize| c < nodes.len() && nodes[c as int].matched,
            kids@ == paths[p as int].children@.take(i as int).filter(keep),
        decreases paths[p as int].children.len() - i,
    {
        let c = paths[p].children[i];
        proof {
            let all = paths[p as int].children@;
            assert(all.take(i + 1) =~= all.take(i as int).push(c));
            all.take(i as int).lemma_filter_push(c, keep);
            if c < nodes.len() {
                assert(nodes[c as int].matched == paths[c as int].matched);
            }
        }
        if c < paths.len() && paths[c].matched {
            kids.push(c);
        }
        i += 1;
    }
    assert(paths[p as int].children@.take(i as int) =~= paths[p as int].children@);
    kids
}

/// Appends to `out` the nodes of the display traversal that starts at
/// `node`.
pub(crate) fn shown_from(
    paths: &Vec<Path>,
    node: usize,
    out: &mut Vec<usize>,
    Ghost(segments): Ghost<Seq<Segment>>,
)
    requires
        node < paths.len(),
        children_follow(paths.deep_view()),
    ensures
        final(out)@ == old(out)@ + nodes_of(rows_from(paths.deep_view(), node as int, segments)),
    decreases paths.len() - node,
{
    let ghost nodes = paths.deep_view();
    let ghost start = out@;
    out.push(node);
    assert(nodes[node as int] == paths[node as int]@);
    assert(out@ =~= start + nodes_of(seq![Row { node, segments }]));
    if paths[node].open {
        let kids = matched_children(paths, node);
        let mut i: usize = 0;
        while i < kids.len()
            invariant
                i <= kids.len(),
                node < paths.len(),
                nodes == paths.deep_view(),
                children_follow(nodes),
                kids@ == shown_children(nodes, node as int),
                out@ + nodes_of(rows_below(nodes, node as int, kids@, i as int, segments)) == start
                    + nodes_of(
                    seq![Row { node, segments }] + rows_below(
                        nodes,
                        node as int,
                        kids@,
                        0,
                        segments,
                    ),
                ),
            decreases kids.len() - i,
        {
            let kid = kids[i];
            let ghost own = if i == kids.len() - 1 {
                Segment::End
            } else {
                Segment::Continuation
            };
            proof {
                lemma_shown_children_follow(nodes, node as int, i as int);
            }
            let ghost so_far = out@;
            shown_from(paths, kid, out, Ghost(segments.push(own)));
            proof {
                let first = rows_from(nodes, kid as int, segments.push(own));
                let rest = rows_below(nodes, node as int, kids@, i + 1, segments);
                assert(rows_below(nodes, node as int, kids@, i as int, segments) == first + rest);
                lemma_nodes_of_add(first, rest);
                assert(so_far + (nodes_of(first) + nodes_of(rest)) =~= (so_far + nodes_of(first))
                    + nodes_of(rest));
            }
            i += 1;
        }
        proof {
            assert(rows_below(nodes, node as int, kids@, kids.len() as int, segments)
                =~= Seq::empty());
            assert(nodes_of(Seq::<Row>::empty()) =~= Seq::empty());
            assert(out@ + Seq::<usize>::empty() =~= out@);
            lemma_nodes_of_add(
                seq![Row { node, segments }],
                rows_below(nodes, node as int, kids@, 0, segments),
            );
        }
    }
}

/// The lines of two runs of rows are the lines of the first followed by
/// those of the second.
pub proof fn lemma_lines_of_add(nodes: Seq<PathView>, a: Seq<Row>, b: Seq<Row>)
    ensures
        lines_of(nodes, a + b) == lines_of(nodes, a) + lines_of(nodes, b),
{
    assert(lines_of(nodes, a + b) =~= lines_of(nodes, a) + lines_of(nodes, b));
}

/// The nodes of two runs of rows are the nodes of the first followed by
/// those of the second.
pub proof fn lemma_nodes_of_add(a: Seq<Row>, b: Seq<Row>)
    ensures
        nodes_of(a + b) == nodes_of(a) + nodes_of(b),
{
    assert(nodes_of(a + b) =~= nodes_of(a) + nodes_of(b));
}

/// A shown child is a child: it comes after its parent and lies in the list.
pub proof fn lemma_shown_children_follow(nodes: Seq<PathView>, p: int, j: int)
    requires
        children_follow(nodes),
        0 <= p < nodes.len(),
        0 <= j < shown_children(nodes, p).len(),
    ensures
        p < shown_children(nodes, p)[j] < nodes.len(),
        nodes[shown_children(nodes, p)[j] as int].matched,
{
    let keep = |c: usize| c < nodes.len() && nodes[c as int].matched;
    let kids = nodes[p].children;
    kids.lemma_filter_pred(keep, j);
    let c = kids.filter(keep)[j];
    assert(kids.filter(keep).contains(c));
    kids.lemma_filter_contains_rev(keep, c);
    let at = choose|at: int| 0 <= at < kids.len() && kids[at] == c;
    assert(p < kids[at] < nodes.len());
}

/// Every row of a display traversal shows a node of the list.
pub proof fn lemma_rows_in_list(nodes: Seq<PathView>, node: int, segments: Seq<Segment>, i: int)
    requires
        0 <= i < rows_from(nodes, node, segments).len(),
    ensures
        rows_from(nodes, node, segments)[i].node < nodes.len(),
    decreases nodes.len() - node, 1int, 0int,
{
    if nodes[node].open && i > 0 {
        lemma_rows_below_in_list(nodes, node, shown_children(nodes, node), 0, segments, i - 1);
    }
}

/// Every row below a node shows a node of the list.
pub proof fn lemma_rows_below_in_list(
    nodes: Seq<PathView>,
    parent: int,
    kids: Seq<usize>,
    from: int,
    segments: Seq<Segment>,
    i: int,
)
    requires
        0 <= i < rows_below(nodes, parent, kids, from, segments).len(),
    ensures
        rows_below(nodes, parent, kids, from, segments)[i].node < nodes.len(),
    decreases nodes.len() - parent, 0int, kids.len() - from,
{
    if 0 <= from < kids.len() {
        let own = if from == kids.len() - 1 {
            Segment::End
        } else {
            Segment::Continuation
        };
        let first = if parent < kids[from] < nodes.len() {
            rows_from(nodes, kids[from] as int, segments.push(own))
        } else {
            Seq::empty()
        };
        if i < first.len() {
            lemma_rows_in_list(nodes, kids[from] as int, segments.push(own), i);
        } else {
            lemma_rows_below_in_list(nodes, parent, kids, from + 1, segments, i - first.len());
        }
    }
}

} // verus!
