//! The order of a list of names: a merge sort that moves indices, not
//! names, and keeps names that are equal in the order in which they came.

use crate::text::{
    chars_less, lemma_lex_irreflexive, lemma_lex_total, lemma_lex_transitive, lex_less,
};
use vstd::prelude::*;

verus! {

/// `order` lists indices of `names` from `lo` up to `hi`, each at most
/// once, in the order of the names, and names that are equal in the order
/// of their indices.
pub open spec fn is_stable_order_of(
    order: Seq<usize>,
    names: Seq<Seq<char>>,
    lo: int,
    hi: int,
) -> bool {
    &&& forall|i: int| 0 <= i < order.len() ==> lo <= #[trigger] order[i] < hi
    &&& forall|i: int, j: int|
        0 <= i < j < order.len() ==> comes_before(names, #[trigger] order[i], #[trigger] order[j])
}

/// Name `a` has its place before name `b`: it is less, or it is equal and
/// has the lesser index.
pub open spec fn comes_before(names: Seq<Seq<char>>, a: usize, b: usize) -> bool {
    &&& a != b
    &&& !lex_less(names[b as int], names[a as int])
    &&& names[a as int] == names[b as int] ==> a < b
}

/// `order` lists every index of `names` once, in the order of the names,
/// and names that are equal in the order of their indices.
pub open spec fn is_stable_order(order: Seq<usize>, names: Seq<Seq<char>>) -> bool {
    order.len() == names.len() && is_stable_order_of(order, names, 0, names.len() as int)
}

/// What has its place before a name has its place before every name that
/// comes after that name.
pub proof fn lemma_comes_before_transitive(names: Seq<Seq<char>>, a: usize, b: usize, c: usize)
    requires
        comes_before(names, a, b),
        comes_before(names, b, c),
    ensures
        comes_before(names, a, c),
{
    let (x, y, z) = (names[a as int], names[b as int], names[c as int]);
    lemma_lex_total(x, y);
    lemma_lex_total(y, z);
    lemma_lex_irreflexive(x);
    if lex_less(x, y) && lex_less(y, z) {
        lemma_lex_transitive(x, y, z);
    }
    if lex_less(z, x) {
        if lex_less(x, y) {
            lemma_lex_transitive(z, x, y);
        } else if lex_less(y, z) {
            lemma_lex_transitive(y, z, x);
        }
    }
    if x == z && a != c {
        if lex_less(x, y) {
            assert(lex_less(z, y));
        }
    }
}

/// Whether name `a` has its place before name `b`, for `a` less than `b`.
fn left_first(keys: &Vec<Vec<char>>, a: usize, b: usize) -> (r: bool)
    requires
        a < b < keys.len(),
    ensures
        r == comes_before(keys.deep_view(), a, b),
        !r ==> comes_before(keys.deep_view(), b, a),
{
    let r = !chars_less(&keys[b], &keys[a]);
    proof {
        let names = keys.deep_view();
        assert(names[a as int] == keys[a as int]@ && names[b as int] == keys[b as int]@);
        lemma_lex_total(names[a as int], names[b as int]);
        lemma_lex_irreflexive(names[a as int]);
        if lex_less(names[a as int], names[b as int]) && lex_less(names[b as int], names[a as int]) {
            lemma_lex_transitive(names[a as int], names[b as int], names[a as int]);
        }
    }
    r
}

/// Merges the orders of two ranges that follow each other into the order
/// of both.
fn merge(
    keys: &Vec<Vec<char>>,
    left: &Vec<usize>,
    right: &Vec<usize>,
    Ghost(lo): Ghost<int>,
    Ghost(mid): Ghost<int>,
    Ghost(hi): Ghost<int>,
) -> (merged: Vec<usize>)
    requires
        0 <= lo <= mid <= hi <= keys.len(),
        is_stable_order_of(left@, keys.deep_view(), lo, mid),
        is_stable_order_of(right@, keys.deep_view(), mid, hi),
        left.len() + right.len() <= usize::MAX,
    ensures
        merged.len() == left.len() + right.len(),
        is_stable_order_of(merged@, keys.deep_view(), lo, hi),
{
    let ghost names = keys.deep_view();
    let mut merged: Vec<usize> = Vec::new();
    let mut i: usize = 0;
    let mut j: usize = 0;
    while i < left.len() || j < right.len()
        invariant
            i <= left.len(),
            j <= right.len(),
            0 <= lo <= mid <= hi <= keys.len(),
            names == keys.deep_view(),
            left.len() + right.len() <= usize::MAX,
            is_stable_order_of(left@, names, lo, mid),
            is_stable_order_of(right@, names, mid, hi),
            merged.len() == i + j,
            is_stable_order_of(merged@, names, lo, hi),
            forall|m: int, l: int|
                0 <= m < merged.len() && i <= l < left.len() ==> comes_before(
                    names,
                    #[trigger] merged[m],
                    #[trigger] left[l],
                ),
            forall|m: int, r: int|
                0 <= m < merged.len() && j <= r < right.len() ==> comes_before(
                    names,
                    #[trigger] merged[m],
                    #[trigger] right[r],
                ),
        decreases left.len() - i + (right.len() - j),
    {
        let ghost before = merged@;
        let take_left = if i == left.len() {
            false
        } else if j == right.len() {
            true
        } else {
            left_first(keys, left[i], right[j])
        };
        if take_left {
            let x = left[i];
            merged.push(x);
            proof {
                assert forall|m: int, r: int|
                    0 <= m < merged.len() && j <= r < right.len() implies comes_before(
                    names,
                    #[trigger] merged[m],
                    #[trigger] right[r],
                ) by {
                    if m == before.len() {
                        if r > j {
                            lemma_comes_before_transitive(names, x, right[j as int], right[r]);
                        }
                    } else {
                        assert(merged[m] == before[m]);
                    }
                }
                assert forall|m: int, l: int|
                    0 <= m < merged.len() && i + 1 <= l < left.len() implies comes_before(
                    names,
                    #[trigger] merged[m],
                    #[trigger] left[l],
                ) by {
                    if m < before.len() {
                        assert(merged[m] == before[m]);
                    }
                }
                assert forall|a: int, b: int| 0 <= a < b < merged.len() implies comes_before(
                    names,
                    #[trigger] merged[a],
                    #[trigger] merged[b],
                ) by {
                    assert(merged[a] == before[a]);
                    if b < before.len() {
                        assert(merged[b] == before[b]);
                    }
                }
                assert forall|a: int| 0 <= a < merged.len() implies lo <= #[trigger] merged[a]
                    < hi by {
                    if a < before.len() {
                        assert(merged[a] == before[a]);
                    }
                }
            }
            i += 1;
        } else {
            let x = right[j];
            merged.push(x);
            proof {
                assert forall|m: int, l: int|
                    0 <= m < merged.len() && i <= l < left.len() implies comes_before(
                    names,
                    #[trigger] merged[m],
                    #[trigger] left[l],
                ) by {
                    if m == before.len() {
                        if l > i {
                            lemma_comes_before_transitive(names, x, left[i as int], left[l]);
                        }
                    } else {
                        assert(merged[m] == before[m]);
                    }
                }
                assert forall|m: int, r: int|
                    0 <= m < merged.len() && j + 1 <= r < right.len() implies comes_before(
                    names,
                    #[trigger] merged[m],
                    #[trigger] right[r],
                ) by {
                    if m < before.len() {
                        assert(merged[m] == before[m]);
                    }
                }
                assert forall|a: int, b: int| 0 <= a < b < merged.len() implies comes_before(
                    names,
                    #[trigger] merged[a],
                    #[trigger] merged[b],
                ) by {
                    assert(merged[a] == before[a]);
                    if b < before.len() {
                        assert(merged[b] == before[b]);
                    }
                }
                assert forall|a: int| 0 <= a < merged.len() implies lo <= #[trigger] merged[a]
                    < hi by {
                    if a < before.len() {
                        assert(merged[a] == before[a]);
                    }
                }
            }
            j += 1;
        }
    }
    merged
}

/// The order of the names from `lo` up to `hi`.
fn sort_range(keys: &Vec<Vec<char>>, lo: usize, hi: usize) -> (order: Vec<usize>)
    requires
        lo <= hi <= keys.len(),
    ensures
        order.len() == hi - lo,
        is_stable_order_of(order@, keys.deep_view(), lo as int, hi as int),
    decreases hi - lo,
{
    if hi - lo < 2 {
        let mut order: Vec<usize> = Vec::new();
        if lo < hi {
            order.push(lo);
        }
        return order;
    }
    let mid = lo + (hi - lo) / 2;
    let left = sort_range(keys, lo, mid);
    let right = sort_range(keys, mid, hi);
    merge(keys, &left, &right, Ghost(lo as int), Ghost(mid as int), Ghost(hi as int))
}

/// The indices of `keys` in the order of the names, names that are equal
/// in the order of their indices.
pub fn stable_order(keys: &Vec<Vec<char>>) -> (order: Vec<usize>)
    ensures
        is_stable_order(order@, keys.deep_view()),
{
    let order = sort_range(keys, 0, keys.len());
    assert(keys.deep_view().len() == keys.len());
    order
}

} // verus!
