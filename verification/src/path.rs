//! The node of the directory tree, and the arena that holds the nodes.
//!
//! Nodes live in a `Vec<Path>`; a node is named by its index there. Parent
//! and child relations are indices into the same vector.

use crate::link::{lemma_chain_bounds, on_chain, parents_of, parents_precede};
use crate::order::{is_stable_order, stable_order};
use crate::text::{
    chars_less, chars_of, drop_empty, lex_less, non_empty, push_char, split_chars, split_on,
    string_of,
};
use core::cmp::Ordering;
use vstd::prelude::*;
use vstd::utf8::{decode_utf8, valid_utf8};

verus! {

/// The character that separates the components of a path name.
pub const SEPARATOR: char = '/';

/// One entry of the file system.
#[derive(Debug, PartialEq, Eq)]
pub struct Path {
    /// The components of the path, outermost first.
    pub components: Vec<String>,
    /// The index of the parent node, if the node has been linked to one.
    pub parent: Option<usize>,
    /// The indices of the child nodes, in the order in which they were added.
    pub children: Vec<usize>,
    /// Whether the entry is a directory.
    pub is_dir: bool,
    /// Whether the children of the node are shown.
    pub open: bool,
    /// Whether the node is shown under the current filter.
    pub matched: bool,
    /// The last component as it is displayed, highlight markers included.
    pub match_text: String,
    /// Whether the user has selected the node.
    pub selected: bool,
    /// The full path name the node was made from.
    pub joined: String,
}

/// The mathematical value of a node: texts as character sequences, lists as
/// sequences.
pub struct PathView {
    pub segments: Seq<Seq<char>>,
    pub parent: Option<usize>,
    pub children: Seq<usize>,
    pub is_dir: bool,
    pub open: bool,
    pub matched: bool,
    pub match_text: Seq<char>,
    pub selected: bool,
    pub joined: Seq<char>,
}

impl View for Path {
    type V = PathView;

    open spec fn view(&self) -> PathView {
        PathView {
            segments: self.components.deep_view(),
            parent: self.parent,
            children: self.children@,
            is_dir: self.is_dir,
            open: self.open,
            matched: self.matched,
            match_text: self.match_text@,
            selected: self.selected,
            joined: self.joined@,
        }
    }
}

impl DeepView for Path {
    type V = PathView;

    open spec fn deep_view(&self) -> PathView {
        self@
    }
}

/// `a` is shorter than `b` and equals the start of `b`, component by
/// component.
pub open spec fn is_proper_prefix(a: Seq<Seq<char>>, b: Seq<Seq<char>>) -> bool {
    a.len() < b.len() && b.take(a.len() as int) == a
}

/// The node that `Path::new` and `Path::from` make of a path name: the name
/// split at the separator, displayed under its last component, shown, open,
/// not selected and not linked.
pub open spec fn fresh(pathname: Seq<char>, is_dir: bool) -> PathView {
    PathView {
        segments: split_on(pathname, SEPARATOR),
        parent: None,
        children: Seq::empty(),
        is_dir,
        open: true,
        matched: true,
        match_text: split_on(pathname, SEPARATOR).last(),
        selected: false,
        joined: pathname,
    }
}

impl Path {
    /// The node for the path name `pathname`.
    pub fn new(pathname: String, is_dir: bool) -> (path: Path)
        ensures
            path@ == fresh(pathname@, is_dir),
    {
        let chars = chars_of(pathname.as_str());
        let pieces = split_chars(&chars, SEPARATOR);
        proof {
            crate::text::lemma_split_on_has_pieces(chars@, SEPARATOR);
        }
        let components = strings_of(&pieces);
        assert(components.deep_view().len() == components.len());
        let match_text = components[components.len() - 1].clone();
        let path = Path {
            parent: None,
            components,
            joined: pathname,
            selected: false,
            matched: true,
            match_text,
            is_dir,
            open: true,
            children: Vec::new(),
        };
        assert(path@.children =~= Seq::<usize>::empty());
        path
    }

    /// The node for the path name `pathname`.
    pub fn from(pathname: &str, is_dir: bool) -> (path: Path)
        ensures
            path@ == fresh(pathname@, is_dir),
    {
        Path::new(pathname.to_owned(), is_dir)
    }
}

/// The strings that hold the characters of each member of `pieces`.
pub fn strings_of(pieces: &Vec<Vec<char>>) -> (out: Vec<String>)
    ensures
        out.deep_view() == pieces.deep_view(),
{
    let mut out: Vec<String> = Vec::new();
    let mut i: usize = 0;
    while i < pieces.len()
        invariant
            i <= pieces.len(),
            out.len() == i,
            forall|j: int| 0 <= j < i ==> out[j]@ == pieces[j]@,
        decreases pieces.len() - i,
    {
        out.push(string_of(&pieces[i]));
        i += 1;
    }
    assert(out.deep_view() =~~= pieces.deep_view());
    out
}

/// The character vectors that hold the characters of each member of `texts`.
pub fn chars_of_all(texts: &Vec<String>) -> (out: Vec<Vec<char>>)
    ensures
        out.deep_view() == texts.deep_view(),
{
    let mut out: Vec<Vec<char>> = Vec::new();
    let mut i: usize = 0;
    while i < texts.len()
        invariant
            i <= texts.len(),
            out.len() == i,
            forall|j: int| 0 <= j < i ==> out[j]@ == texts[j]@,
        decreases texts.len() - i,
    {
        out.push(chars_of(texts[i].as_str()));
        i += 1;
    }
    assert(out.deep_view() =~~= texts.deep_view());
    out
}

/// Nodes are ordered by their path names.
impl PartialOrd for Path {
    fn partial_cmp(&self, other: &Path) -> (r: Option<Ordering>) {
        let mine = chars_of(self.joined.as_str());
        let theirs = chars_of(other.joined.as_str());
        if chars_less(&mine, &theirs) {
            Some(Ordering::Less)
        } else if chars_less(&theirs, &mine) {
            Some(Ordering::Greater)
        } else {
            Some(Ordering::Equal)
        }
    }
}

impl vstd::std_specs::cmp::PartialOrdSpecImpl for Path {
    open spec fn obeys_partial_cmp_spec() -> bool {
        true
    }

    open spec fn partial_cmp_spec(&self, other: &Path) -> Option<Ordering> {
        if lex_less(self.joined@, other.joined@) {
            Some(Ordering::Less)
        } else if lex_less(other.joined@, self.joined@) {
            Some(Ordering::Greater)
        } else {
            Some(Ordering::Equal)
        }
    }
}

/// What a single node can do and tell of itself.
pub trait PathBehaviour: View<V = PathView> + Sized {
    /// Opens a closed node and closes an open one.
    fn flip_open(&mut self)
        ensures
            final(self)@ == (PathView { open: !old(self)@.open, ..old(self)@ }),
    ;

    /// Whether the node lies below `other`: the components of `other` are
    /// a proper prefix of its own.
    fn is_child_of(&self, other: &Self) -> (r: bool)
        ensures
            r == is_proper_prefix(other@.segments, self@.segments),
    ;

    /// The last component of the node.
    fn basename(&self) -> (name: &str)
        requires
            self@.segments.len() > 0,
        ensures
            name@ == self@.segments.last(),
    ;

    /// The number of components of the node.
    fn len(&self) -> (n: usize)
        ensures
            n == self@.segments.len(),
    ;

    /// The number of children of the node.
    fn n_children(&self) -> (n: usize)
        ensures
            n == self@.children.len(),
    ;
}

impl PathBehaviour for Path {
    fn flip_open(&mut self) {
        self.open = !self.open;
    }

    fn is_child_of(&self, other: &Path) -> (r: bool) {
        if other.components.len() >= self.components.len() {
            return false;
        }
        let mut i: usize = 0;
        while i < other.components.len()
            invariant
                i <= other.components.len(),
                other.components.len() < self.components.len(),
                forall|j: int| 0 <= j < i ==> self.components[j]@ == other.components[j]@,
            decreases other.components.len() - i,
        {
            if self.components[i] != other.components[i] {
                assert(self@.segments.take(other@.segments.len() as int)[i as int]
                    != other@.segments[i as int]);
                return false;
            }
            i += 1;
        }
        assert(self@.segments.take(other@.segments.len() as int) =~= other@.segments);
        true
    }

    fn basename(&self) -> (name: &str) {
        self.components[self.components.len() - 1].as_str()
    }

    fn len(&self) -> (n: usize) {
        self.components.len()
    }

    fn n_children(&self) -> (n: usize) {
        self.children.len()
    }
}

/// `nodes` after node `child` has been added below node `parent`: `child`
/// is appended to the children of `parent`, and `parent` becomes the parent
/// of `child`.
pub open spec fn with_child(nodes: Seq<PathView>, child: usize, parent: usize) -> Seq<PathView> {
    let grown = nodes.update(
        parent as int,
        PathView { children: nodes[parent as int].children.push(child), ..nodes[parent as int] },
    );
    grown.update(child as int, PathView { parent: Some(parent), ..grown[child as int] })
}

/// Makes node `child` a child of node `parent`.
pub fn add(paths: &mut Vec<Path>, child: usize, parent: usize)
    requires
        child < old(paths).len(),
        parent < old(paths).len(),
    ensures
        final(paths).deep_view() == with_child(old(paths).deep_view(), child, parent),
{
    paths[parent].children.push(child);
    paths[child].parent = Some(parent);
    assert(paths.deep_view() =~= with_child(old(paths).deep_view(), child, parent));
}

/// Makes node `child` a child of node `parent`.
pub fn add_child(paths: &mut Vec<Path>, parent: usize, child: usize)
    requires
        child < old(paths).len(),
        parent < old(paths).len(),
    ensures
        final(paths).deep_view() == with_child(old(paths).deep_view(), child, parent),
{
    self::add(paths, child, parent)
}

/// Makes node `parent` the parent of node `child`.
pub fn add_parent(paths: &mut Vec<Path>, child: usize, parent: usize)
    requires
        child < old(paths).len(),
        parent < old(paths).len(),
    ensures
        final(paths).deep_view() == with_child(old(paths).deep_view(), child, parent),
{
    self::add(paths, child, parent)
}

/// Why a listing could not be turned into nodes.
#[derive(Clone, Copy, PartialEq, Eq, Debug)]
pub enum ListingError {
    /// The listing is not valid UTF-8.
    InvalidEncoding,
    /// There is not one directory flag for each path name of the listing.
    FlagCount,
}

/// The name of the root node.
pub const ROOT: &'static str = ".";

/// The path names of a listing: its lines that are not empty.
pub open spec fn listing_lines(text: Seq<char>) -> Seq<Seq<char>> {
    non_empty(split_on(text, '\n'))
}

/// The path name of an entry of the listing as seen from the root: the
/// name of the root, the separator and the name of the entry.
pub open spec fn rooted(name: Seq<char>) -> Seq<char> {
    ROOT@.push(SEPARATOR) + name
}

/// The node of an entry of the listing: the node of its path name, with
/// the name of the root in front of its components and of its path name.
pub open spec fn listed(name: Seq<char>, is_dir: bool) -> PathView {
    PathView {
        segments: seq![ROOT@] + split_on(name, SEPARATOR),
        joined: rooted(name),
        ..fresh(name, is_dir)
    }
}

/// The nodes after the root are the nodes of the entries of a listing,
/// taken in the order `order`.
pub open spec fn lists_in_order(
    nodes: Seq<PathView>,
    order: Seq<usize>,
    names: Seq<Seq<char>>,
    is_dir: Seq<bool>,
) -> bool {
    &&& nodes.len() == order.len() + 1
    &&& forall|i: int|
        0 <= i < order.len() ==> #[trigger] nodes[i + 1] == listed(
            names[order[i] as int],
            is_dir[order[i] as int],
        )
}

/// What `create_paths` makes of the entries of a listing: the root, then
/// the nodes of the entries in the order of their path names, entries
/// with the same path name in the order of the listing.
pub open spec fn is_listing(
    nodes: Seq<PathView>,
    names: Seq<Seq<char>>,
    is_dir: Seq<bool>,
) -> bool {
    &&& nodes[0] == fresh(ROOT@, true)
    &&& exists|order: Seq<usize>|
        is_stable_order(order, names) && #[trigger] lists_in_order(nodes, order, names, is_dir)
}

/// Decodes a listing.
///
/// Stands for `String::from_utf8`, which the standard library documents as
/// returning the string whose bytes are the given ones, or an error if
/// they are not valid UTF-8. The contract says so over the definitions of
/// validity and decoding that `vstd` gives, and it is taken on trust.
#[verifier::external_body]
fn decode(bytes: Vec<u8>) -> (text: Option<String>)
    ensures
        text is Some <==> valid_utf8(bytes@),
        text matches Some(s) ==> s@ == decode_utf8(bytes@),
{
    String::from_utf8(bytes).ok()
}

/// The path names of the listing `stdout`, in the order of the listing.
pub fn listing_names(stdout: Vec<u8>) -> (names: Result<Vec<String>, ListingError>)
    ensures
        names is Ok <==> valid_utf8(stdout@),
        names matches Ok(v) ==> v.deep_view() == listing_lines(decode_utf8(stdout@)),
        names matches Err(e) ==> e == ListingError::InvalidEncoding,
{
    match decode(stdout) {
        Some(text) => {
            let chars = chars_of(text.as_str());
            let lines = drop_empty(split_chars(&chars, '\n'));
            Ok(strings_of(&lines))
        },
        None => Err(ListingError::InvalidEncoding),
    }
}

/// The nodes of a listing: the root, then a node for each path name of
/// `string`, in the order of the path names. `is_dir` tells of each path
/// name of the listing, in the order of the listing, whether it names a
/// directory.
pub fn create_paths(string: Vec<u8>, is_dir: &Vec<bool>) -> (paths: Result<Vec<Path>, ListingError>)
    ensures
        paths matches Ok(v) ==> is_listing(
            v.deep_view(),
            listing_lines(decode_utf8(string@)),
            is_dir@,
        ),
        paths is Ok <==> valid_utf8(string@) && listing_lines(decode_utf8(string@)).len()
            == is_dir.len(),
        paths matches Err(e) ==> e == if valid_utf8(string@) {
            ListingError::FlagCount
        } else {
            ListingError::InvalidEncoding
        },
{
    let names = match listing_names(string) {
        Ok(names) => names,
        Err(e) => {
            return Err(e);
        },
    };
    assert(names.deep_view().len() == names.len());
    if names.len() != is_dir.len() {
        return Err(ListingError::FlagCount);
    }
    let ghost lines = names.deep_view();
    let ghost flags = is_dir@;
    let keys = chars_of_all(&names);
    let order = stable_order(&keys);
    let mut paths: Vec<Path> = Vec::new();
    paths.push(Path::from(ROOT, true));
    let mut i: usize = 0;
    while i < order.len()
        invariant
            i <= order.len(),
            names.len() == is_dir.len(),
            lines == names.deep_view(),
            flags == is_dir@,
            is_stable_order(order@, lines),
            paths.len() == i + 1,
            paths.deep_view()[0] == fresh(ROOT@, true),
            forall|j: int|
                0 <= j < i ==> #[trigger] paths.deep_view()[j + 1] == listed(
                    lines[order[j] as int],
                    flags[order[j] as int],
                ),
        decreases order.len() - i,
    {
        let ghost before = paths.deep_view();
        let k = order[i];
        assert(lines[k as int] == names[k as int]@);
        let mut node = Path::from(names[k].as_str(), is_dir[k]);
        let ghost made = node@;
        node.components.insert(0, ROOT.to_owned());
        let mut joined = ROOT.to_owned();
        push_char(&mut joined, SEPARATOR);
        joined.append(names[k].as_str());
        node.joined = joined;
        assert(node@ == listed(lines[k as int], flags[k as int])) by {
            assert(node@.segments =~= seq![ROOT@] + made.segments);
        }
        let ghost view = node@;
        paths.push(node);
        proof {
            let after = paths.deep_view();
            assert(after =~= before.push(view));
            assert forall|j: int| 0 <= j < i + 1 implies #[trigger] after[j + 1] == listed(
                lines[order[j] as int],
                flags[order[j] as int],
            ) by {
                if j < i {
                    assert(after[j + 1] == before[j + 1]);
                }
            }
        }
        i += 1;
    }
    assert(lists_in_order(paths.deep_view(), order@, lines, flags));
    Ok(paths)
}

/// The number of nodes below index `upto`, other than `node`, on whose
/// chain `node` lies: the descendants of `node` among the first `upto`
/// nodes.
pub open spec fn descendants_upto(parents: Seq<Option<usize>>, node: int, upto: int) -> nat
    decreases upto,
{
    if upto <= 0 {
        0
    } else if upto - 1 != node && on_chain(parents, node, upto - 1) {
        descendants_upto(parents, node, upto - 1) + 1
    } else {
        descendants_upto(parents, node, upto - 1)
    }
}

/// There are no more descendants below an index than there are nodes, and
/// none at or before the node itself.
pub proof fn lemma_descendants_upto(parents: Seq<Option<usize>>, node: int, upto: int)
    requires
        0 <= upto,
    ensures
        descendants_upto(parents, node, upto) <= upto,
        upto <= node + 1 ==> descendants_upto(parents, node, upto) == 0,
    decreases upto,
{
    if upto > 0 {
        lemma_descendants_upto(parents, node, upto - 1);
        if on_chain(parents, node, upto - 1) {
            lemma_chain_bounds(parents, node, upto - 1);
        }
    }
}

/// Whether `node` lies on the chain of node `k`.
fn is_on_chain(paths: &Vec<Path>, node: usize, k: usize) -> (r: bool)
    requires
        k < paths.len(),
        parents_precede(paths.deep_view(), paths.len() as int),
    ensures
        r == on_chain(parents_of(paths.deep_view()), node as int, k as int),
{
    let ghost parents = parents_of(paths.deep_view());
    let mut cur = k;
    loop
        invariant
            cur < paths.len(),
            parents == parents_of(paths.deep_view()),
            parents_precede(paths.deep_view(), paths.len() as int),
            on_chain(parents, node as int, cur as int) == on_chain(parents, node as int, k as int),
        decreases cur,
    {
        if cur == node {
            return true;
        }
        assert(paths.deep_view()[cur as int].parent == paths[cur as int].parent);
        match paths[cur].parent {
            Some(p) => {
                cur = p;
            },
            None => {
                return false;
            },
        }
    }
}

/// The number of descendants of `node`.
pub fn n_descendants(paths: &Vec<Path>, node: usize) -> (n: usize)
    requires
        node < paths.len(),
        parents_precede(paths.deep_view(), paths.len() as int),
    ensures
        n == descendants_upto(parents_of(paths.deep_view()), node as int, paths.len() as int),
{
    let ghost parents = parents_of(paths.deep_view());
    let mut n: usize = 0;
    let mut k: usize = node + 1;
    proof {
        lemma_descendants_upto(parents, node as int, node + 1);
    }
    while k < paths.len()
        invariant
            node < k <= paths.len(),
            parents == parents_of(paths.deep_view()),
            parents_precede(paths.deep_view(), paths.len() as int),
            n == descendants_upto(parents, node as int, k as int),
            n <= k,
        decreases paths.len() - k,
    {
        if is_on_chain(paths, node, k) {
            n += 1;
        }
        k += 1;
    }
    n
}

} // verus!
