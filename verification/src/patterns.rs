//! The patterns of a query: splitting the query, dropping the patterns
//! that another pattern makes redundant, and testing a text against them.

use crate::path::{chars_of_all, strings_of};
use crate::text::{
    chars_less, chars_of, has_substring, is_substring, is_whitespace, lemma_lex_irreflexive,
    lemma_lex_total, lemma_lex_transitive, lex_less, non_empty, same_chars, split_where,
    split_whitespace,
};
use vstd::prelude::*;

verus! {

/// The patterns of a query: its runs of characters other than white space.
pub open spec fn query_patterns(text: Seq<char>) -> Seq<Seq<char>> {
    non_empty(split_where(text, |c: char| is_whitespace(c)))
}

/// Some other pattern of the set holds `pattern` as a substring, so that
/// whatever matches that other pattern matches `pattern` too.
pub open spec fn is_redundant(patterns: Seq<Seq<char>>, pattern: Seq<char>) -> bool {
    exists|k: int|
        0 <= k < patterns.len() && #[trigger] patterns[k] != pattern && is_substring(
            pattern,
            patterns[k],
        )
}

/// `pattern` is a member of the set that no other member makes redundant.
pub open spec fn is_kept(patterns: Seq<Seq<char>>, pattern: Seq<char>) -> bool {
    patterns.contains(pattern) && !is_redundant(patterns, pattern)
}

/// `reduced` holds the patterns of `patterns` that are kept, and no other.
pub open spec fn is_reduction(reduced: Seq<Seq<char>>, patterns: Seq<Seq<char>>) -> bool {
    forall|p: Seq<char>|
        #![trigger reduced.contains(p)]
        #![trigger is_kept(patterns, p)]
        reduced.contains(p) <==> is_kept(patterns, p)
}

/// Each member comes strictly before the next in lexicographic order, so
/// that no member occurs twice.
pub open spec fn strictly_sorted(texts: Seq<Seq<char>>) -> bool {
    forall|i: int, j: int| 0 <= i < j < texts.len() ==> lex_less(#[trigger] texts[i], #[trigger] texts[j])
}

/// `text` holds every pattern as a substring.
pub open spec fn matches_all(text: Seq<char>, patterns: Seq<Seq<char>>) -> bool {
    forall|k: int| 0 <= k < patterns.len() ==> is_substring(#[trigger] patterns[k], text)
}

/// `text` holds at least one pattern as a substring.
pub open spec fn matches_any(text: Seq<char>, patterns: Seq<Seq<char>>) -> bool {
    exists|k: int| 0 <= k < patterns.len() && is_substring(#[trigger] patterns[k], text)
}

/// `text` holds every pattern of the set that no other pattern of the set
/// makes redundant.
pub open spec fn kept_match(text: Seq<char>, patterns: Seq<Seq<char>>) -> bool {
    forall|p: Seq<char>| #[trigger] is_kept(patterns, p) ==> is_substring(p, text)
}

/// The patterns of the query `text`.
pub fn split_by_space(text: &str) -> (patterns: Vec<String>)
    ensures
        patterns.deep_view() == query_patterns(text@),
{
    let chars = chars_of(text);
    let words = split_whitespace(&chars);
    strings_of(&words)
}

/// Whether another member of `patterns` holds member `i` as a substring.
fn redundant(patterns: &Vec<Vec<char>>, i: usize) -> (r: bool)
    requires
        i < patterns.len(),
    ensures
        r == is_redundant(patterns.deep_view(), patterns[i as int]@),
{
    let ghost all = patterns.deep_view();
    let mut k: usize = 0;
    while k < patterns.len()
        invariant
            k <= patterns.len(),
            i < patterns.len(),
            all == patterns.deep_view(),
            forall|j: int|
                0 <= j < k ==> !(#[trigger] all[j] != all[i as int] && is_substring(
                    all[i as int],
                    all[j],
                )),
        decreases patterns.len() - k,
    {
        assert(all[k as int] == patterns[k as int]@ && all[i as int] == patterns[i as int]@);
        if !same_chars(&patterns[k], &patterns[i]) && has_substring(&patterns[k], &patterns[i]) {
            return true;
        }
        k += 1;
    }
    assert(all[i as int] == patterns[i as int]@);
    false
}

/// Puts `text` into the strictly sorted list `sorted`, unless it is there.
fn insert_sorted(sorted: &mut Vec<Vec<char>>, text: Vec<char>)
    requires
        strictly_sorted(old(sorted).deep_view()),
    ensures
        strictly_sorted(final(sorted).deep_view()),
        forall|t: Seq<char>|
            #![trigger final(sorted).deep_view().contains(t)]
            #![trigger old(sorted).deep_view().contains(t)]
            final(sorted).deep_view().contains(t) <==> (old(sorted).deep_view().contains(t) || t
                == text@),
{
    let ghost before = sorted.deep_view();
    let mut pos: usize = 0;
    while pos < sorted.len() && chars_less(&sorted[pos], &text)
        invariant
            pos <= sorted.len(),
            sorted.deep_view() == before,
            forall|j: int| 0 <= j < pos ==> lex_less(#[trigger] before[j], text@),
        decreases sorted.len() - pos,
    {
        assert(before[pos as int] == sorted[pos as int]@);
        pos += 1;
    }
    if pos < sorted.len() && same_chars(&sorted[pos], &text) {
        assert(before[pos as int] == sorted[pos as int]@);
        return ;
    }
    proof {
        assert forall|j: int| pos <= j < before.len() implies lex_less(text@, #[trigger] before[j]) by {
            assert(before[pos as int] == sorted[pos as int]@);
            lemma_lex_total(text@, before[pos as int]);
            if j > pos {
                lemma_lex_transitive(text@, before[pos as int], before[j]);
            }
        }
        assert forall|t: Seq<char>| before.contains(t) implies t != text@ by {
            lemma_lex_irreflexive(text@);
        }
    }
    let ghost word = text@;
    sorted.insert(pos, text);
    proof {
        let after = sorted.deep_view();
        assert(after =~~= before.insert(pos as int, word));
        assert forall|t: Seq<char>|
            #![trigger after.contains(t)]
            #![trigger before.contains(t)]
            after.contains(t) <==> (before.contains(t) || t == word) by {
            if after.contains(t) {
                let j = choose|j: int| 0 <= j < after.len() && after[j] == t;
                if j < pos {
                    assert(before[j] == t);
                } else if j > pos {
                    assert(before[j - 1] == t);
                }
            }
            if before.contains(t) {
                let j = choose|j: int| 0 <= j < before.len() && before[j] == t;
                if j < pos {
                    assert(after[j] == t);
                } else {
                    assert(after[j + 1] == t);
                }
            }
            if t == word {
                assert(after[pos as int] == t);
            }
        }
    }
}

/// A copy of `text`.
fn copy_chars(text: &Vec<char>) -> (copy: Vec<char>)
    ensures
        copy@ == text@,
{
    let mut copy: Vec<char> = Vec::new();
    let mut i: usize = 0;
    while i < text.len()
        invariant
            i <= text.len(),
            copy@ == text@.take(i as int),
        decreases text.len() - i,
    {
        copy.push(text[i]);
        i += 1;
    }
    assert(text@.take(i as int) =~= text@);
    copy
}

/// The members of `patterns` that no other member makes redundant, each
/// once, in lexicographic order.
pub fn reduce_patterns(patterns: &Vec<String>) -> (reduced: Vec<String>)
    ensures
        strictly_sorted(reduced.deep_view()),
        is_reduction(reduced.deep_view(), patterns.deep_view()),
{
    let chars = chars_of_all(patterns);
    let ghost all = patterns.deep_view();
    let mut kept: Vec<Vec<char>> = Vec::new();
    let mut i: usize = 0;
    assert(kept.deep_view() =~= Seq::empty());
    while i < chars.len()
        invariant
            i <= chars.len(),
            chars.deep_view() == all,
            strictly_sorted(kept.deep_view()),
            forall|p: Seq<char>|
                #![trigger kept.deep_view().contains(p)]
                kept.deep_view().contains(p) <==> (all.take(i as int).contains(p) && !is_redundant(
                    all,
                    p,
                )),
        decreases chars.len() - i,
    {
        let ghost before = kept.deep_view();
        assert(all[i as int] == chars[i as int]@);
        assert(all.take(i + 1) =~= all.take(i as int).push(all[i as int]));
        let drop = redundant(&chars, i);
        if !drop {
            let text = copy_chars(&chars[i]);
            insert_sorted(&mut kept, text);
        }
        proof {
            let after = kept.deep_view();
            let seen = all.take(i as int);
            let next = all.take(i + 1);
            assert forall|p: Seq<char>| #![trigger after.contains(p)]
                after.contains(p) <==> (next.contains(p) && !is_redundant(all, p)) by {
                assert(before.contains(p) <==> (seen.contains(p) && !is_redundant(all, p)));
                assert(drop == is_redundant(all, all[i as int]));
                if drop {
                    assert(after == before);
                } else {
                    assert(after.contains(p) <==> (before.contains(p) || p == all[i as int]));
                }
                if next.contains(p) {
                    let j = choose|j: int| 0 <= j < next.len() && next[j] == p;
                    if j < i {
                        assert(seen[j] == p);
                    }
                }
                if seen.contains(p) {
                    let j = choose|j: int| 0 <= j < seen.len() && seen[j] == p;
                    assert(next[j] == p);
                }
                if p == all[i as int] {
                    assert(next[i as int] == p);
                }
            }
        }
        i += 1;
    }
    assert(all.take(i as int) =~= all);
    strings_of(&kept)
}

/// Whether `text` holds all of `patterns`, if `full`, or one of them, if
/// not.
pub(crate) fn chars_match(text: &Vec<char>, patterns: &Vec<Vec<char>>, full: bool) -> (r: bool)
    ensures
        r == if full {
            matches_all(text@, patterns.deep_view())
        } else {
            matches_any(text@, patterns.deep_view())
        },
{
    let ghost all = patterns.deep_view();
    let mut k: usize = 0;
    while k < patterns.len()
        invariant
            k <= patterns.len(),
            all == patterns.deep_view(),
            forall|j: int| 0 <= j < k ==> is_substring(#[trigger] all[j], text@) == full,
        decreases patterns.len() - k,
    {
        assert(all[k as int] == patterns[k as int]@);
        if has_substring(text, &patterns[k]) != full {
            return !full;
        }
        k += 1;
    }
    full
}

/// Whether `string` holds all of `patterns` as substrings, if `full`, or at
/// least one of them, if not.
pub fn matches(string: &str, patterns: &Vec<String>, full: bool) -> (r: bool)
    ensures
        r == if full {
            matches_all(string@, patterns.deep_view())
        } else {
            matches_any(string@, patterns.deep_view())
        },
{
    let text = chars_of(string);
    let chars = chars_of_all(patterns);
    chars_match(&text, &chars, full)
}

/// A text holds all the patterns of a reduction exactly if it holds all the
/// patterns that are kept.
pub proof fn lemma_reduction_matches(
    reduced: Seq<Seq<char>>,
    patterns: Seq<Seq<char>>,
    text: Seq<char>,
)
    requires
        is_reduction(reduced, patterns),
    ensures
        matches_all(text, reduced) == kept_match(text, patterns),
{
    if matches_all(text, reduced) {
        assert forall|p: Seq<char>| #[trigger] is_kept(patterns, p) implies is_substring(
            p,
            text,
        ) by {
            assert(reduced.contains(p));
            let k = choose|k: int| 0 <= k < reduced.len() && reduced[k] == p;
            assert(is_substring(reduced[k], text));
        }
    }
    if kept_match(text, patterns) {
        assert forall|k: int| 0 <= k < reduced.len() implies is_substring(
            #[trigger] reduced[k],
            text,
        ) by {
            assert(reduced.contains(reduced[k]));
        }
    }
}

} // verus!
