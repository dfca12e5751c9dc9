//! The tree: the nodes of a listing, linked, with the operations that
//! filter them, open and close them, select them and lay them out in
//! lines.

use crate::display::{
    children_follow, displayed, lemma_lines_of_add, lemma_rows_in_list, lemma_shown_children_follow,
    lines_of, matched_children, nodes_of, render_line, rows_below, rows_from, shown_children,
    shown_from, Row, Segment,
};
use crate::link::{
    children_upto, find_base, gaps_bound, lemma_children_upto_prefix, lemma_linked_same_shape,
    lemma_linked_shape, lemma_nearest_before, linked, linked_parents, nearest_before, on_chain,
    parents_of, parents_precede, relinked, same_but_links, segments_of, unlinked,
};
use crate::matching::{
    filtered, filtered_node, lemma_leads_up, lemma_matched_is_filtered, match_paths,
};
use crate::path::{
    create_paths, is_listing, listing_lines, lists_in_order, ListingError, Path, PathBehaviour,
    PathView,
};
use crate::patterns::{reduce_patterns, split_by_space};
use crate::text::{append_decimal, decimal};
use vstd::prelude::*;
use vstd::utf8::{decode_utf8, valid_utf8};

verus! {

/// The number of nodes that are shown.
pub open spec fn count_matched(nodes: Seq<PathView>) -> nat
    decreases nodes.len(),
{
    if nodes.len() == 0 {
        0
    } else if nodes.last().matched {
        count_matched(nodes.drop_last()) + 1
    } else {
        count_matched(nodes.drop_last())
    }
}

/// The number of nodes that are selected.
pub open spec fn count_selected(nodes: Seq<PathView>) -> nat
    decreases nodes.len(),
{
    if nodes.len() == 0 {
        0
    } else if nodes.last().selected {
        count_selected(nodes.drop_last()) + 1
    } else {
        count_selected(nodes.drop_last())
    }
}

/// The parent of every node that is shown is shown.
pub open spec fn ancestors_shown(nodes: Seq<PathView>) -> bool {
    forall|i: int|
        0 <= i < nodes.len() && (#[trigger] nodes[i]).matched ==> (nodes[i].parent matches Some(p)
            ==> p < nodes.len() && nodes[p as int].matched)
}

/// Every node has at least one component.
pub open spec fn all_named(nodes: Seq<PathView>) -> bool {
    forall|i: int| 0 <= i < nodes.len() ==> (#[trigger] nodes[i]).segments.len() > 0
}

/// `nodes` after every directory that has more than `n` children has been
/// closed. Nothing else changes, and no node is opened.
pub open spec fn collapsed(nodes: Seq<PathView>, n: usize) -> Seq<PathView> {
    Seq::new(
        nodes.len(),
        |i: int|
            PathView {
                open: nodes[i].open && !(nodes[i].is_dir && nodes[i].children.len() > n),
                ..nodes[i]
            },
    )
}

/// The text of the information line for the given counts.
pub open spec fn info_text(selected: nat, shown: nat, total: nat) -> Seq<char> {
    "(selected: "@ + decimal(selected) + ", shown: "@ + decimal(shown) + ", total: "@ + decimal(
        total,
    ) + ")"@
}

/// The tree: all nodes in the order of the listing, the root, and the
/// counts that the information line shows.
pub struct Tree {
    /// The nodes, the root first.
    pub paths: Vec<Path>,
    /// The index of the root.
    pub tree: usize,
    /// The number of nodes.
    pub n_paths: usize,
    /// The number of nodes that the filter shows.
    pub n_matches: usize,
    /// The number of nodes that are selected.
    pub n_selected: usize,
}

impl Tree {
    /// The nodes of the tree.
    pub open spec fn nodes(&self) -> Seq<PathView> {
        self.paths.deep_view()
    }

    /// The rows that are displayed, top to bottom.
    pub open spec fn rows(&self) -> Seq<Row> {
        displayed(self.nodes(), self.tree as int, self.n_matches as int)
    }

    /// The nodes are linked, every node has a name, the root is the first
    /// node, the counts are those of the nodes, and no node is shown below
    /// a node that is not.
    pub open spec fn wf(&self) -> bool {
        &&& linked(self.nodes())
        &&& all_named(self.nodes())
        &&& ancestors_shown(self.nodes())
        &&& self.tree == 0
        &&& self.n_paths == self.paths.len()
        &&& self.n_matches == count_matched(self.nodes())
        &&& self.n_selected == count_selected(self.nodes())
    }

    /// The tree of a listing: the nodes that `create_paths` makes of it,
    /// linked. `is_dir` tells of each path name of the listing, in the
    /// order of the listing, whether it names a directory.
    pub fn from_stdout(stdout: Vec<u8>, is_dir: &Vec<bool>) -> (tree: Result<Tree, ListingError>)
        ensures
            tree is Ok <==> valid_utf8(stdout@) && listing_lines(decode_utf8(stdout@)).len()
                == is_dir.len(),
            tree matches Err(e) ==> e == if valid_utf8(stdout@) {
                ListingError::FlagCount
            } else {
                ListingError::InvalidEncoding
            },
            tree matches Ok(t) ==> t.wf() && exists|nodes: Seq<PathView>|
                #![trigger relinked(nodes, t.nodes())]
                is_listing(nodes, listing_lines(decode_utf8(stdout@)), is_dir@) && relinked(
                    nodes,
                    t.nodes(),
                ),
    {
        match create_paths(stdout, is_dir) {
            Ok(paths) => {
                let ghost nodes = paths.deep_view();
                let ghost names = listing_lines(decode_utf8(stdout@));
                proof {
                    crate::text::lemma_split_on_has_pieces(crate::path::ROOT@, crate::path::SEPARATOR);
                    let order = choose|order: Seq<usize>|
                        crate::order::is_stable_order(order, names) && #[trigger] lists_in_order(
                            nodes,
                            order,
                            names,
                            is_dir@,
                        );
                    assert forall|i: int| 0 <= i < nodes.len() implies (#[trigger] nodes[i]).matched
                        && !nodes[i].selected && nodes[i].segments.len() > 0 by {
                        if i > 0 {
                            assert(nodes[i - 1 + 1] == crate::path::listed(
                                names[order[i - 1] as int],
                                is_dir@[order[i - 1] as int],
                            ));
                        }
                    }
                }
                let tree = Tree::from_paths(paths);
                assert(relinked(nodes, tree.nodes()));
                Ok(tree)
            },
            Err(e) => Err(e),
        }
    }

    /// The tree of the nodes `paths`, the first of which is the root: the
    /// nodes are linked and counted.
    pub fn from_paths(paths: Vec<Path>) -> (tree: Tree)
        requires
            paths.len() > 0,
        ensures
            linked(tree.nodes()),
            relinked(paths.deep_view(), tree.nodes()),
            tree.tree == 0,
            tree.n_paths == paths.len(),
            tree.n_matches == count_matched(tree.nodes()),
            tree.n_selected == count_selected(tree.nodes()),
            all_named(paths.deep_view()) && (forall|i: int|
                0 <= i < paths.len() ==> (#[trigger] paths.deep_view()[i]).matched) ==> tree.wf()
                && tree.n_matches == paths.len(),
    {
        let mut paths = paths;
        let ghost before = paths.deep_view();
        let root = link_paths(&mut paths);
        let n_paths = paths.len();
        let mut tree = Tree { paths, tree: root, n_paths, n_matches: 0, n_selected: 0 };
        tree.n_matches = tree.calc_n_matches();
        tree.n_selected = tree.calc_n_selected();
        proof {
            let nodes = tree.nodes();
            lemma_count_matched(nodes);
            assert(forall|i: int| 0 <= i < nodes.len() ==> same_but_links(before[i], #[trigger] nodes[i]));
            if all_named(before) && (forall|i: int|
                0 <= i < before.len() ==> (#[trigger] before[i]).matched) {
                lemma_linked_shape(nodes);
                assert forall|i: int| 0 <= i < nodes.len() implies (#[trigger] nodes[i]).matched
                    && nodes[i].segments.len() > 0 by {
                    assert(same_but_links(before[i], nodes[i]));
                    assert(before[i].matched);
                }
            }
        }
        tree
    }

    /// The number of nodes that are shown.
    pub fn calc_n_matches(&self) -> (n: usize)
        ensures
            n == count_matched(self.nodes()),
    {
        let ghost nodes = self.nodes();
        let mut n: usize = 0;
        let mut i: usize = 0;
        while i < self.paths.len()
            invariant
                i <= self.paths.len(),
                nodes == self.paths.deep_view(),
                n == count_matched(nodes.take(i as int)),
                n <= i,
            decreases self.paths.len() - i,
        {
            assert(nodes.take(i + 1).drop_last() =~= nodes.take(i as int));
            assert(nodes[i as int] == self.paths[i as int]@);
            if self.paths[i].matched {
                n += 1;
            }
            i += 1;
        }
        assert(nodes.take(i as int) =~= nodes);
        n
    }

    /// The number of nodes that are selected.
    fn calc_n_selected(&self) -> (n: usize)
        ensures
            n == count_selected(self.nodes()),
    {
        let ghost nodes = self.nodes();
        let mut n: usize = 0;
        let mut i: usize = 0;
        while i < self.paths.len()
            invariant
                i <= self.paths.len(),
                nodes == self.paths.deep_view(),
                n == count_selected(nodes.take(i as int)),
                n <= i,
            decreases self.paths.len() - i,
        {
            assert(nodes.take(i + 1).drop_last() =~= nodes.take(i as int));
            assert(nodes[i as int] == self.paths[i as int]@);
            if self.paths[i].selected {
                n += 1;
            }
            i += 1;
        }
        assert(nodes.take(i as int) =~= nodes);
        n
    }

    /// The lines that are displayed, top to bottom.
    pub fn as_lines(&self) -> (lines: Vec<String>)
        requires
            self.wf(),
        ensures
            lines.deep_view() == lines_of(self.nodes(), self.rows()),
    {
        proof {
            lemma_linked_shape(self.nodes());
        }
        tree_string(&self.paths, self.tree, self.n_matches)
    }

    /// Shows or hides every node, and gives every node its plain name.
    fn reset_matched(&mut self, value: bool)
        requires
            all_named(old(self).nodes()),
        ensures
            final(self).tree == old(self).tree,
            final(self).n_paths == old(self).n_paths,
            final(self).n_matches == old(self).n_matches,
            final(self).n_selected == old(self).n_selected,
            final(self).nodes().len() == old(self).nodes().len(),
            forall|i: int|
                0 <= i < old(self).nodes().len() ==> #[trigger] final(self).nodes()[i] == (PathView {
                    matched: value,
                    match_text: old(self).nodes()[i].segments.last(),
                    ..old(self).nodes()[i]
                }),
    {
        let ghost before = self.nodes();
        let n = self.paths.len();
        let mut i: usize = 0;
        while i < n
            invariant
                i <= n,
                n == self.paths.len(),
                n == before.len(),
                all_named(before),
                self.tree == old(self).tree,
                self.n_paths == old(self).n_paths,
                self.n_matches == old(self).n_matches,
                self.n_selected == old(self).n_selected,
                forall|j: int|
                    0 <= j < i ==> #[trigger] self.paths.deep_view()[j] == (PathView {
                        matched: value,
                        match_text: before[j].segments.last(),
                        ..before[j]
                    }),
                forall|j: int| i <= j < n ==> #[trigger] self.paths.deep_view()[j] == before[j],
            decreases n - i,
        {
            let ghost cur = self.paths.deep_view();
            assert(cur[i as int] == before[i as int]);
            assert(cur[i as int] == self.paths[i as int]@);
            let basename = self.paths[i].basename().to_owned();
            self.paths[i].matched = value;
            self.paths[i].match_text = basename;
            proof {
                let after = self.paths.deep_view();
                assert forall|j: int| 0 <= j < i + 1 implies #[trigger] after[j] == (PathView {
                    matched: value,
                    match_text: before[j].segments.last(),
                    ..before[j]
                }) by {
                    if j < i {
                        assert(after[j] == cur[j]);
                    }
                }
                assert forall|j: int| i + 1 <= j < n implies #[trigger] after[j] == before[j] by {
                    assert(after[j] == cur[j]);
                }
            }
            i += 1;
        }
    }

    /// Closes every directory that has more than `n` children: see
    /// `collapsed`.
    pub fn collapse_over(&mut self, n: usize)
        requires
            old(self).wf(),
        ensures
            final(self).wf(),
            final(self).n_matches == old(self).n_matches,
            final(self).n_selected == old(self).n_selected,
            final(self).nodes() == collapsed(old(self).nodes(), n),
    {
        let ghost before = self.nodes();
        let len = self.paths.len();
        let mut i: usize = 0;
        while i < len
            invariant
                i <= len,
                len == self.paths.len(),
                len == before.len(),
                self.tree == old(self).tree,
                self.n_paths == old(self).n_paths,
                self.n_matches == old(self).n_matches,
                self.n_selected == old(self).n_selected,
                forall|j: int|
                    0 <= j < i ==> #[trigger] self.paths.deep_view()[j] == collapsed(before, n)[j],
                forall|j: int| i <= j < len ==> #[trigger] self.paths.deep_view()[j] == before[j],
            decreases len - i,
        {
            let ghost cur = self.paths.deep_view();
            assert(cur[i as int] == before[i as int]);
            assert(cur[i as int] == self.paths[i as int]@);
            if self.paths[i].is_dir && self.paths[i].n_children() > n {
                self.paths[i].open = false;
            }
            proof {
                let after = self.paths.deep_view();
                assert forall|j: int| 0 <= j < i + 1 implies #[trigger] after[j] == collapsed(
                    before,
                    n,
                )[j] by {
                    if j < i {
                        assert(after[j] == cur[j]);
                    }
                }
                assert forall|j: int| i + 1 <= j < len implies #[trigger] after[j]
                    == before[j] by {
                    assert(after[j] == cur[j]);
                }
            }
            i += 1;
        }
        proof {
            let after = self.nodes();
            assert(after =~= collapsed(before, n));
            lemma_linked_same_shape(before, after);
            lemma_count_matched_same(before, after);
            lemma_count_selected_same(before, after);
            assert(ancestors_shown(after)) by {
                assert forall|i: int| 0 <= i < after.len() && (#[trigger] after[i]).matched implies (
                after[i].parent matches Some(p) ==> p < after.len() && after[p as int].matched) by {
                    assert(before[i].matched);
                    if let Some(p) = after[i].parent {
                        assert(before[p as int].matched);
                    }
                }
            }
        }
    }

    /// Filters the tree by the query `text`: see `filtered_node`.
    pub fn filter(&mut self, text: &str)
        requires
            old(self).wf(),
        ensures
            final(self).wf(),
            final(self).n_selected == old(self).n_selected,
            final(self).nodes() == filtered(old(self).nodes(), text@),
            text@.len() == 0 ==> final(self).n_matches == final(self).n_paths,
    {
        let ghost before = self.nodes();
        proof {
            lemma_linked_shape(before);
        }
        if text.is_empty() {
            self.reset_matched(true);
            self.n_matches = self.paths.len();
            proof {
                let after = self.nodes();
                lemma_linked_same_shape(before, after);
                lemma_count_selected_same(before, after);
                lemma_count_matched(after);
                assert(forall|i: int| 0 <= i < after.len() ==> after[i].parent == before[i].parent);
                assert(after =~= filtered(before, text@));
            }
        } else {
            self.reset_matched(false);
            let ghost hidden = self.nodes();
            let patterns = split_by_space(text);
            let patterns = reduce_patterns(&patterns);
            proof {
                lemma_linked_same_shape(before, hidden);
                lemma_linked_shape(hidden);
            }
            match_paths(&mut self.paths, &patterns);
            self.n_matches = self.calc_n_matches();
            proof {
                let after = self.nodes();
                let reduced = patterns.deep_view();
                let n = before.len() as int;
                assert forall|i: int| 0 <= i < n implies #[trigger] after[i] == filtered_node(
                    before,
                    text@,
                    i,
                ) by {
                    lemma_matched_is_filtered(before, hidden, reduced, text@, i);
                }
                assert(after =~= filtered(before, text@));
                lemma_linked_same_shape(before, after);
                lemma_count_selected_same(before, after);
                assert(parents_of(hidden) =~= parents_of(before));
                assert(ancestors_shown(after)) by {
                    assert forall|i: int|
                        0 <= i < after.len() && (#[trigger] after[i]).matched implies (
                    after[i].parent matches Some(p) ==> p < after.len()
                        && after[p as int].matched) by {
                        if let Some(p) = after[i].parent {
                            assert(before[i].parent == Some(p));
                            assert(parents_of(hidden)[i] == Some(p));
                            assert(on_chain(parents_of(hidden), p as int, p as int));
                            assert(on_chain(parents_of(hidden), p as int, i));
                            assert(after[i] == crate::matching::matched_node(hidden, reduced, i, n));
                            lemma_leads_up(hidden, reduced, i, p as int, n);
                            assert(after[p as int] == crate::matching::matched_node(
                                hidden,
                                reduced,
                                p as int,
                                n,
                            ));
                        }
                    }
                }
            }
        }
    }

    /// The information line: how many nodes are selected, how many are
    /// shown, and how many there are.
    pub fn info_line(&self) -> (line: String)
        ensures
            line@ == info_text(self.n_selected as nat, self.n_matches as nat, self.n_paths as nat),
    {
        let mut line = String::new();
        line.append("(selected: ");
        append_decimal(&mut line, self.n_selected);
        line.append(", shown: ");
        append_decimal(&mut line, self.n_matches);
        line.append(", total: ");
        append_decimal(&mut line, self.n_paths);
        line.append(")");
        assert(line@ =~= info_text(
            self.n_selected as nat,
            self.n_matches as nat,
            self.n_paths as nat,
        ));
        line
    }

    /// The node that the `target`-th displayed line shows, if there are
    /// that many lines.
    pub fn ith(&self, target: usize) -> (node: Option<usize>)
        requires
            self.wf(),
        ensures
            node == if target < self.rows().len() {
                Some(self.rows()[target as int].node)
            } else {
                None
            },
            node matches Some(k) ==> k < self.paths.len(),
    {
        let mut shown: Vec<usize> = Vec::new();
        proof {
            lemma_linked_shape(self.nodes());
            assert(nodes_of(Seq::<Row>::empty()) =~= Seq::empty());
        }
        assert(self.nodes()[self.tree as int] == self.paths[self.tree as int]@);
        if self.n_matches > 0 && self.paths[self.tree].matched {
            shown_from(&self.paths, self.tree, &mut shown, Ghost(Seq::empty()));
        }
        assert(shown@ =~= nodes_of(self.rows()));
        if target < shown.len() {
            proof {
                lemma_rows_in_list(self.nodes(), self.tree as int, Seq::empty(), target as int);
            }
            Some(shown[target])
        } else {
            None
        }
    }

    /// The nodes after the node that the `i`-th displayed line shows has
    /// been opened, if it was closed, or closed, if it was open. If there
    /// are not that many lines the nodes are as they were.
    pub open spec fn open_flipped(&self, i: usize) -> Seq<PathView> {
        if i < self.rows().len() {
            let k = self.rows()[i as int].node as int;
            self.nodes().update(k, PathView { open: !self.nodes()[k].open, ..self.nodes()[k] })
        } else {
            self.nodes()
        }
    }

    /// The nodes after the node that the `i`-th displayed line shows has
    /// been selected, if it was not, or taken out of the selection, if it
    /// was selected. If there are not that many lines the nodes are as
    /// they were.
    pub open spec fn selected_flipped(&self, i: usize) -> Seq<PathView> {
        if i < self.rows().len() {
            let k = self.rows()[i as int].node as int;
            self.nodes().update(
                k,
                PathView { selected: !self.nodes()[k].selected, ..self.nodes()[k] },
            )
        } else {
            self.nodes()
        }
    }

    /// What `flip_open` and `flip_selected` leave alone.
    pub open spec fn same_frame(&self, other: &Tree) -> bool {
        &&& self.tree == other.tree
        &&& self.n_paths == other.n_paths
        &&& self.n_matches == other.n_matches
        &&& self.nodes().len() == other.nodes().len()
    }

    /// Opens or closes the node that the `i`-th displayed line shows. Does
    /// nothing if there are not that many lines.
    pub fn flip_open(&mut self, i: usize)
        requires
            old(self).wf(),
        ensures
            final(self).wf(),
            final(self).same_frame(old(self)),
            final(self).n_selected == old(self).n_selected,
            final(self).nodes() == old(self).open_flipped(i),
    {
        let ghost before = self.nodes();
        if let Some(k) = self.ith(i) {
            self.paths[k].flip_open();
            proof {
                let after = self.nodes();
                assert(after =~= before.update(
                    k as int,
                    PathView { open: !before[k as int].open, ..before[k as int] },
                ));
                lemma_linked_same_shape(before, after);
                lemma_count_matched_same(before, after);
                lemma_count_selected_same(before, after);
                assert(ancestors_shown(after)) by {
                    assert forall|j: int|
                        0 <= j < after.len() && (#[trigger] after[j]).matched implies (
                    after[j].parent matches Some(p) ==> p < after.len()
                        && after[p as int].matched) by {
                        assert(before[j].matched);
                        if let Some(p) = after[j].parent {
                            assert(before[p as int].matched);
                        }
                    }
                }
            }
        }
    }

    /// Selects the node that the `i`-th displayed line shows, or takes it
    /// out of the selection if it is selected. Does nothing if there are
    /// not that many lines.
    pub fn flip_selected(&mut self, i: usize)
        requires
            old(self).wf(),
        ensures
            final(self).wf(),
            final(self).same_frame(old(self)),
            final(self).n_selected == count_selected(final(self).nodes()),
            final(self).nodes() == old(self).selected_flipped(i),
    {
        let ghost before = self.nodes();
        match self.ith(i) {
            Some(k) => {
                self.paths[k].selected = !self.paths[k].selected;
            },
            None => {
                return ;
            },
        }
        self.n_selected = self.calc_n_selected();
        proof {
            let after = self.nodes();
            let k = old(self).rows()[i as int].node as int;
            assert(after =~= before.update(
                k,
                PathView { selected: !before[k].selected, ..before[k] },
            ));
            lemma_linked_same_shape(before, after);
            lemma_count_matched_same(before, after);
            assert(ancestors_shown(after)) by {
                assert forall|j: int| 0 <= j < after.len() && (#[trigger] after[j]).matched implies (
                after[j].parent matches Some(p) ==> p < after.len() && after[p as int].matched) by {
                    assert(before[j].matched);
                    if let Some(p) = after[j].parent {
                        assert(before[p as int].matched);
                    }
                }
            }
        }
    }
}

/// Returns the `i`-th node if there is one.
pub fn peek(stack: &Vec<Path>, i: usize) -> (node: Option<&Path>)
    ensures
        node == if i < stack.len() {
            Some(&stack[i as int])
        } else {
            None
        },
{
    if i < stack.len() {
        return Some(&stack[i]);
    }
    None
}

/// Links every node after the first to the nearest node before it whose
/// components are a proper prefix of its own.
pub fn _create_tree(paths: &mut Vec<Path>)
    requires
        old(paths).len() > 0,
        unlinked(old(paths).deep_view()),
    ensures
        linked(final(paths).deep_view()),
        relinked(old(paths).deep_view(), final(paths).deep_view()),
{
    let n = paths.len();
    let ghost segs = segments_of(paths.deep_view());
    let mut gaps: Vec<usize> = Vec::new();
    gaps.push(0);
    let mut k: usize = 1;
    proof {
        let nodes = paths.deep_view();
        assert forall|p: int| 0 <= p < n implies (#[trigger] nodes[p]).children == children_upto(
            parents_of(nodes),
            p as usize,
            1,
        ) by {
            assert(children_upto(parents_of(nodes), p as usize, 0) =~= Seq::empty());
            assert(nodes[p].children =~= Seq::empty());
        }
    }
    while peek(paths, k).is_some()
        invariant
            1 <= k <= n,
            n == paths.len(),
            gaps.len() == k,
            segments_of(paths.deep_view()) == segs,
            relinked(old(paths).deep_view(), paths.deep_view()),
            forall|i: int|
                0 <= i < k ==> (#[trigger] paths.deep_view()[i]).parent == nearest_before(segs, i, i),
            forall|i: int| k <= i < n ==> (#[trigger] paths.deep_view()[i]).parent is None,
            forall|p: int|
                0 <= p < n ==> (#[trigger] paths.deep_view()[p]).children == children_upto(
                    parents_of(paths.deep_view()),
                    p as usize,
                    k as int,
                ),
            parents_precede(paths.deep_view(), k as int),
            gaps_bound(paths.deep_view(), gaps@, k as int),
        decreases n - k,
    {
        let ghost before = paths.deep_view();
        let ghost old_gaps = gaps@;
        let (found, low) = find_base(paths, &gaps, k);
        proof {
            lemma_nearest_before(segs, k as int, k as int, 0);
        }
        if let Some(p) = found {
            crate::path::add(paths, k, p);
        }
        gaps.push(low);
        proof {
            let after = paths.deep_view();
            assert(segments_of(after) =~= segs);
            assert forall|q: int| 0 <= q < n implies (#[trigger] after[q]).children
                == children_upto(parents_of(after), q as usize, k + 1) by {
                lemma_children_upto_prefix(
                    parents_of(after),
                    parents_of(before),
                    q as usize,
                    k as int,
                );
                assert(before[q].children == children_upto(
                    parents_of(before),
                    q as usize,
                    k as int,
                ));
            }
            assert forall|i: int| 0 <= i < k + 1 implies (#[trigger] after[i]).parent
                == nearest_before(segs, i, i) by {
                if i < k {
                    assert(before[i].parent == nearest_before(segs, i, i));
                }
            }
            assert(parents_precede(after, k + 1)) by {
                assert forall|i: int| 0 <= i < k + 1 && i < after.len() implies ((
                #[trigger] after[i]).parent matches Some(q) ==> q < i) by {
                    if i < k {
                        assert(after[i].parent == before[i].parent);
                    }
                }
            }
            assert(gaps_bound(after, gaps@, k + 1)) by {
                assert forall|m: int, j: int|
                    0 <= m < k + 1 && m < gaps@.len() && m < after.len() && 0 <= j < m implies (
                after[m].parent matches Some(p) ==> (p < j ==> #[trigger] gaps@[m] <= (
                #[trigger] after[j]).segments.len())) by {
                    assert(after[j].segments == before[j].segments);
                    if m < k {
                        assert(after[m].parent == before[m].parent);
                        assert(gaps@[m] == old_gaps[m]);
                        if let Some(p) = before[m].parent {
                            if p < j {
                                assert(old_gaps[m] <= before[j].segments.len());
                            }
                        }
                    }
                }
            }
        }
        k += 1;
    }
    assert(parents_of(paths.deep_view()) =~= linked_parents(segs));
}

/// Builds the parent and child relations of the whole list and returns the
/// index of the root.
///
/// Relations that the nodes held before are discarded.
pub fn link_paths(paths: &mut Vec<Path>) -> (root: usize)
    requires
        old(paths).len() > 0,
    ensures
        root == 0,
        linked(final(paths).deep_view()),
        relinked(old(paths).deep_view(), final(paths).deep_view()),
{
    let n = paths.len();
    let mut i: usize = 0;
    while i < n
        invariant
            i <= n,
            n == paths.len(),
            relinked(old(paths).deep_view(), paths.deep_view()),
            forall|j: int|
                0 <= j < i ==> (#[trigger] paths.deep_view()[j]).parent is None
                    && paths.deep_view()[j].children.len() == 0,
        decreases n - i,
    {
        let ghost before = paths.deep_view();
        paths[i].parent = None;
        paths[i].children = Vec::new();
        proof {
            let after = paths.deep_view();
            assert(after.len() == before.len());
            assert(after[i as int].parent is None);
            assert(after[i as int].children.len() == 0);
            assert forall|j: int| 0 <= j < n implies same_but_links(
                old(paths).deep_view()[j],
                #[trigger] after[j],
            ) by {
                assert(same_but_links(old(paths).deep_view()[j], before[j]));
                if j != i {
                    assert(after[j] == before[j]);
                }
            }
            assert forall|j: int| 0 <= j < i + 1 implies (#[trigger] after[j]).parent is None
                && after[j].children.len() == 0 by {
                if j != i {
                    assert(after[j] == before[j]);
                }
            }
        }
        i += 1;
    }
    let ghost unlinked_nodes = paths.deep_view();
    _create_tree(paths);
    0
}

/// Appends to `lines` the lines of the display traversal that starts at
/// `node`, given the segments of its ancestors and its own.
pub fn _tree_string(
    paths: &Vec<Path>,
    node: usize,
    lines: &mut Vec<String>,
    segments: &mut Vec<Segment>,
)
    requires
        node < paths.len(),
        children_follow(paths.deep_view()),
    ensures
        final(segments)@ == old(segments)@,
        final(lines).deep_view() == old(lines).deep_view() + lines_of(
            paths.deep_view(),
            rows_from(paths.deep_view(), node as int, old(segments)@),
        ),
    decreases paths.len() - node,
{
    let ghost nodes = paths.deep_view();
    let ghost start = lines.deep_view();
    let ghost segs = segments@;
    let line = render_line(&paths[node], segments);
    lines.push(line);
    assert(nodes[node as int] == paths[node as int]@);
    assert(lines.deep_view() =~= start + lines_of(
        nodes,
        seq![Row { node, segments: segs }],
    ));
    if paths[node].open {
        let kids = matched_children(paths, node);
        let mut i: usize = 0;
        assert(rows_below(nodes, node as int, kids@, kids.len() as int, segs) =~= Seq::empty());
        while i < kids.len()
            invariant
                i <= kids.len(),
                node < paths.len(),
                nodes == paths.deep_view(),
                children_follow(nodes),
                kids@ == shown_children(nodes, node as int),
                segments@ == segs,
                lines.deep_view() + lines_of(
                    nodes,
                    rows_below(nodes, node as int, kids@, i as int, segs),
                ) == start + lines_of(
                    nodes,
                    seq![Row { node, segments: segs }] + rows_below(
                        nodes,
                        node as int,
                        kids@,
                        0,
                        segs,
                    ),
                ),
            decreases kids.len() - i,
        {
            let kid = kids[i];
            let own = if i == kids.len() - 1 {
                Segment::End
            } else {
                Segment::Continuation
            };
            proof {
                lemma_shown_children_follow(nodes, node as int, i as int);
            }
            let ghost so_far = lines.deep_view();
            segments.push(own);
            _tree_string(paths, kid, lines, segments);
            segments.pop();
            proof {
                assert(segments@ =~= segs);
                let first = rows_from(nodes, kid as int, segs.push(own));
                let rest = rows_below(nodes, node as int, kids@, i + 1, segs);
                assert(rows_below(nodes, node as int, kids@, i as int, segs) == first + rest);
                lemma_lines_of_add(nodes, first, rest);
                assert(so_far + (lines_of(nodes, first) + lines_of(nodes, rest)) =~= (so_far
                    + lines_of(nodes, first)) + lines_of(nodes, rest));
            }
            i += 1;
        }
        proof {
            assert(rows_below(nodes, node as int, kids@, kids.len() as int, segs) =~= Seq::empty());
            assert(lines_of(nodes, Seq::<Row>::empty()) =~= Seq::empty());
            assert(lines.deep_view() + Seq::<Seq<char>>::empty() =~= lines.deep_view());
        }
    }
}

/// The lines of the display traversal that starts at `root`, or no line if
/// the root is not shown or `len`, the number of nodes that are shown, is
/// zero.
pub fn tree_string(paths: &Vec<Path>, root: usize, len: usize) -> (lines: Vec<String>)
    requires
        root < paths.len(),
        children_follow(paths.deep_view()),
    ensures
        lines.deep_view() == lines_of(
            paths.deep_view(),
            displayed(paths.deep_view(), root as int, len as int),
        ),
{
    let mut lines: Vec<String> = Vec::new();
    assert(lines.deep_view() =~= Seq::empty());
    assert(lines_of(paths.deep_view(), Seq::<Row>::empty()) =~= Seq::empty());
    assert(paths.deep_view()[root as int] == paths[root as int]@);
    if len > 0 && paths[root].matched {
        let mut segments: Vec<Segment> = Vec::new();
        _tree_string(paths, root, &mut lines, &mut segments);
        assert(lines.deep_view() =~= lines_of(
            paths.deep_view(),
            displayed(paths.deep_view(), root as int, len as int),
        ));
    }
    lines
}

/// No more nodes are counted than there are, and all are counted exactly
/// if all are shown, none exactly if none is.
pub proof fn lemma_count_matched(nodes: Seq<PathView>)
    ensures
        count_matched(nodes) <= nodes.len(),
        (forall|i: int| 0 <= i < nodes.len() ==> (#[trigger] nodes[i]).matched) ==> count_matched(
            nodes,
        ) == nodes.len(),
        (forall|i: int| 0 <= i < nodes.len() ==> !(#[trigger] nodes[i]).matched) <==> count_matched(
            nodes,
        ) == 0,
    decreases nodes.len(),
{
    if nodes.len() > 0 {
        let fewer = nodes.drop_last();
        lemma_count_matched(fewer);
        assert(forall|i: int| 0 <= i < fewer.len() ==> fewer[i] == nodes[i]);
        if count_matched(nodes) == 0 {
            assert forall|i: int| 0 <= i < nodes.len() implies !(#[trigger] nodes[i]).matched by {
                if i < fewer.len() {
                    assert(!fewer[i].matched);
                }
            }
        }
    }
}

/// Lists that show the same nodes count the same number of them.
pub proof fn lemma_count_matched_same(a: Seq<PathView>, b: Seq<PathView>)
    requires
        a.len() == b.len(),
        forall|i: int| 0 <= i < a.len() ==> (#[trigger] a[i]).matched == b[i].matched,
    ensures
        count_matched(a) == count_matched(b),
    decreases a.len(),
{
    if a.len() > 0 {
        assert(a.last().matched == a[a.len() - 1].matched);
        lemma_count_matched_same(a.drop_last(), b.drop_last());
    }
}

/// Lists that select the same nodes count the same number of them.
pub proof fn lemma_count_selected_same(a: Seq<PathView>, b: Seq<PathView>)
    requires
        a.len() == b.len(),
        forall|i: int| 0 <= i < a.len() ==> (#[trigger] a[i]).selected == b[i].selected,
    ensures
        count_selected(a) == count_selected(b),
    decreases a.len(),
{
    if a.len() > 0 {
        assert(a.last().selected == a[a.len() - 1].selected);
        lemma_count_selected_same(a.drop_last(), b.drop_last());
    }
}

} // verus!
