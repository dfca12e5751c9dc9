//! Highlighting: the ranges of a name at which patterns occur, merged
//! into maximal spans, and the name with those spans between colour
//! markers.

use crate::path::chars_of_all;
use crate::patterns::{is_kept, is_reduction};
use crate::text::{
    byte_offset, byte_offsets, chars_of, found_at, lemma_byte_offset_grows, occurs_at, push_char,
};
use vstd::prelude::*;
use vstd::utf8::encode_utf8;

verus! {

/// The marker that starts a highlighted span.
pub const BLUE: &'static str = "\u{1b}[38;5;12m";

/// The marker that ends a highlighted span.
pub const RESET: &'static str = "\u{1b}[39m";

/// A range of offsets into a name, `start` included and `end` excluded.
/// The offsets count the bytes of the name in UTF-8.
#[derive(Clone, Copy, PartialEq, Eq, Debug)]
pub struct MatchIdx {
    pub start: usize,
    pub end: usize,
}

/// `range` holds offset `j`.
pub open spec fn holds(range: MatchIdx, j: int) -> bool {
    range.start <= j < range.end
}

/// One of `ranges` holds offset `j`.
pub open spec fn covers(ranges: Seq<MatchIdx>, j: int) -> bool {
    exists|k: int| 0 <= k < ranges.len() && holds(#[trigger] ranges[k], j)
}

/// The ranges are maximal spans in ascending order: none is empty, and
/// each ends before the next begins, with at least one offset between.
pub open spec fn is_merged(ranges: Seq<MatchIdx>) -> bool {
    &&& forall|k: int| 0 <= k < ranges.len() ==> (#[trigger] ranges[k]).start < ranges[k].end
    &&& forall|k: int, l: int|
        0 <= k < l < ranges.len() ==> (#[trigger] ranges[k]).end < (#[trigger] ranges[l]).start
}

/// The ranges of bytes at which `pattern` occurs in `text`, for the
/// occurrences that begin at one of the first `upto` characters, in
/// ascending order. Occurrences that overlap are all listed.
pub open spec fn occurrences(text: Seq<char>, pattern: Seq<char>, upto: int) -> Seq<MatchIdx>
    decreases upto,
{
    if upto <= 0 {
        Seq::empty()
    } else {
        let before = occurrences(text, pattern, upto - 1);
        if occurs_at(text, pattern, upto - 1) {
            before.push(
                MatchIdx {
                    start: byte_offset(text, upto - 1) as usize,
                    end: byte_offset(text, upto - 1 + pattern.len()) as usize,
                },
            )
        } else {
            before
        }
    }
}

/// The occurrences in `text` of the first `n` of `patterns`, pattern by
/// pattern.
pub open spec fn all_occurrences(text: Seq<char>, patterns: Seq<Seq<char>>, n: int) -> Seq<
    MatchIdx,
>
    decreases n,
{
    if n <= 0 {
        Seq::empty()
    } else {
        all_occurrences(text, patterns, n - 1) + occurrences(
            text,
            patterns[n - 1],
            text.len() as int + 1,
        )
    }
}

/// One of the patterns occurs in `name` at a place that holds character
/// `j`.
pub open spec fn pattern_covers(name: Seq<char>, patterns: Seq<Seq<char>>, j: int) -> bool {
    exists|k: int, at: int|
        0 <= k < patterns.len() && #[trigger] occurs_at(name, patterns[k], at) && at <= j < at
            + patterns[k].len()
}

/// An occurrence in `name` of a pattern that is kept holds character `j`.
pub open spec fn kept_covers(name: Seq<char>, patterns: Seq<Seq<char>>, j: int) -> bool {
    exists|p: Seq<char>, at: int|
        is_kept(patterns, p) && #[trigger] occurs_at(name, p, at) && at <= j < at + p.len()
}

/// The characters of `name` that an occurrence of one of the patterns
/// holds, by index.
pub open spec fn pattern_cover(name: Seq<char>, patterns: Seq<Seq<char>>) -> spec_fn(int) -> bool {
    |j: int| pattern_covers(name, patterns, j)
}

/// The characters of `name` that an occurrence of a pattern that is kept
/// holds, by index.
pub open spec fn kept_cover(name: Seq<char>, patterns: Seq<Seq<char>>) -> spec_fn(int) -> bool {
    |j: int| kept_covers(name, patterns, j)
}

/// The first `upto` characters of `base` with a marker in front of each
/// character at which a span of covered characters begins or has ended:
/// `BLUE` in front of the first character of a span, `RESET` in front of
/// the first character after one. `covered` tells of each character, by
/// index, whether it is covered.
pub open spec fn painted(base: Seq<char>, covered: spec_fn(int) -> bool, upto: int) -> Seq<char>
    decreases upto,
{
    if upto <= 0 {
        Seq::empty()
    } else {
        let j = upto - 1;
        let marker = if covered(j) && !(j > 0 && covered(j - 1)) {
            BLUE@
        } else if !covered(j) && j > 0 && covered(j - 1) {
            RESET@
        } else {
            Seq::empty()
        };
        (painted(base, covered, j) + marker).push(base[j])
    }
}

/// `base` with every maximal span of covered characters wrapped in `BLUE`
/// and `RESET`.
pub open spec fn marked(base: Seq<char>, covered: spec_fn(int) -> bool) -> Seq<char> {
    if base.len() > 0 && covered(base.len() - 1) {
        painted(base, covered, base.len() as int) + RESET@
    } else {
        painted(base, covered, base.len() as int)
    }
}

/// `base` with every maximal span of characters that begin at an offset
/// that `ranges` cover wrapped in `BLUE` and `RESET`.
pub open spec fn colored(base: Seq<char>, ranges: Seq<MatchIdx>) -> Seq<char> {
    marked(base, |j: int| covers(ranges, byte_offset(base, j) as int))
}

/// The ranges of `string` at which one of `patterns` occurs.
pub fn match_indices(patterns: &Vec<String>, string: &str) -> (ranges: Vec<MatchIdx>)
    ensures
        ranges@ == all_occurrences(string@, patterns.deep_view(), patterns.len() as int),
{
    let total = string.as_bytes().len();
    assert(encode_utf8(string@).len() == total);
    let text = chars_of(string);
    let chars = chars_of_all(patterns);
    assert(chars.deep_view().len() == chars.len() && patterns.deep_view().len() == patterns.len());
    chars_match_indices(&chars, &text)
}

/// The ranges of `text` at which one of `patterns` occurs.
pub(crate) fn chars_match_indices(patterns: &Vec<Vec<char>>, text: &Vec<char>) -> (ranges: Vec<
    MatchIdx,
>)
    requires
        encode_utf8(text@).len() <= usize::MAX,
    ensures
        ranges@ == all_occurrences(text@, patterns.deep_view(), patterns.len() as int),
{
    let ghost all = patterns.deep_view();
    let offsets = byte_offsets(text);
    let mut ranges: Vec<MatchIdx> = Vec::new();
    let mut n: usize = 0;
    while n < patterns.len()
        invariant
            n <= patterns.len(),
            all == patterns.deep_view(),
            offsets.len() == text.len() + 1,
            forall|k: int| 0 <= k <= text.len() ==> #[trigger] offsets[k] == byte_offset(text@, k),
            ranges@ == all_occurrences(text@, all, n as int),
        decreases patterns.len() - n,
    {
        let pattern = &patterns[n];
        assert(all[n as int] == pattern@);
        let ghost done = ranges@;
        let mut at: usize = 0;
        loop
            invariant_except_break
                at <= text.len(),
                offsets.len() == text.len() + 1,
                forall|k: int|
                    0 <= k <= text.len() ==> #[trigger] offsets[k] == byte_offset(text@, k),
                ranges@ == done + occurrences(text@, pattern@, at as int),
            ensures
                ranges@ == done + occurrences(text@, pattern@, text@.len() as int + 1),
            decreases text.len() - at,
        {
            if found_at(text, pattern, at) {
                ranges.push(MatchIdx { start: offsets[at], end: offsets[at + pattern.len()] });
            }
            assert(done + occurrences(text@, pattern@, at + 1) =~= ranges@);
            if at == text.len() {
                break;
            }
            at += 1;
        }
        n += 1;
    }
    ranges
}

/// No range is empty, and the ranges are in ascending order of their
/// starts.
pub open spec fn starts_ascend(ranges: Seq<MatchIdx>) -> bool {
    &&& forall|k: int| 0 <= k < ranges.len() ==> (#[trigger] ranges[k]).start < ranges[k].end
    &&& forall|k: int, l: int|
        0 <= k < l < ranges.len() ==> (#[trigger] ranges[k]).start <= (#[trigger] ranges[l]).start
}

/// The ranges of `idxs` that are not empty, in ascending order of their
/// starts.
fn sort_by_start(idxs: &Vec<MatchIdx>) -> (sorted: Vec<MatchIdx>)
    ensures
        starts_ascend(sorted@),
        forall|j: int| covers(sorted@, j) == covers(idxs@, j),
{
    let mut sorted: Vec<MatchIdx> = Vec::new();
    let mut i: usize = 0;
    assert forall|j: int| covers(sorted@, j) == covers(idxs@.take(0), j) by {
        assert(!covers(sorted@, j) && !covers(idxs@.take(0), j));
    }
    while i < idxs.len()
        invariant
            i <= idxs.len(),
            starts_ascend(sorted@),
            forall|j: int| covers(sorted@, j) == covers(idxs@.take(i as int), j),
        decreases idxs.len() - i,
    {
        let range = idxs[i];
        let ghost before = sorted@;
        assert(idxs@.take(i + 1) =~= idxs@.take(i as int).push(range));
        if range.start < range.end {
            let mut pos: usize = 0;
            while pos < sorted.len() && sorted[pos].start <= range.start
                invariant
                    pos <= sorted.len(),
                    sorted@ == before,
                    forall|k: int| 0 <= k < pos ==> (#[trigger] before[k]).start <= range.start,
                decreases sorted.len() - pos,
            {
                pos += 1;
            }
            sorted.insert(pos, range);
            assert forall|j: int| covers(sorted@, j) == covers(idxs@.take(i + 1), j) by {
                lemma_covers_insert(before, pos as int, range, j);
                lemma_covers_push(idxs@.take(i as int), range, j);
            }
        } else {
            assert forall|j: int| covers(sorted@, j) == covers(idxs@.take(i + 1), j) by {
                lemma_covers_push(idxs@.take(i as int), range, j);
            }
        }
        i += 1;
    }
    assert(idxs@.take(i as int) =~= idxs@);
    sorted
}

/// The maximal spans of the offsets that `idxs` cover, in ascending order:
/// ranges that overlap or touch are merged into one, and empty ranges are
/// dropped.
pub fn merge_adjacent_indices(idxs: Vec<MatchIdx>) -> (merged: Vec<MatchIdx>)
    ensures
        is_merged(merged@),
        forall|j: int| covers(merged@, j) == covers(idxs@, j),
{
    let sorted = sort_by_start(&idxs);
    let mut merged: Vec<MatchIdx> = Vec::new();
    if sorted.len() == 0 {
        assert forall|j: int| covers(merged@, j) == covers(idxs@, j) by {
            assert(!covers(merged@, j) && !covers(sorted@, j));
        }
        return merged;
    }
    let mut cur = sorted[0];
    let mut i: usize = 1;
    proof {
        assert(sorted@.take(1) =~= Seq::<MatchIdx>::empty().push(cur));
        assert forall|j: int| covers(merged@.push(cur), j) == covers(sorted@.take(1), j) by {
            assert(merged@.push(cur) =~= sorted@.take(1));
        }
    }
    while i < sorted.len()
        invariant
            1 <= i <= sorted.len(),
            starts_ascend(sorted@),
            is_merged(merged@.push(cur)),
            forall|j: int| covers(merged@.push(cur), j) == covers(sorted@.take(i as int), j),
            forall|l: int| i <= l < sorted.len() ==> cur.start <= (#[trigger] sorted@[l]).start,
        decreases sorted.len() - i,
    {
        let next = sorted[i];
        let ghost done = merged@;
        let ghost open = cur;
        assert(sorted@.take(i + 1) =~= sorted@.take(i as int).push(next));
        if next.start <= cur.end {
            if next.end > cur.end {
                cur = MatchIdx { start: cur.start, end: next.end };
            }
            proof {
                assert forall|j: int| covers(done.push(cur), j) == covers(
                    sorted@.take(i + 1),
                    j,
                ) by {
                    lemma_covers_push(done, cur, j);
                    lemma_covers_push(done, open, j);
                    lemma_covers_push(sorted@.take(i as int), next, j);
                }
                assert(is_merged(done.push(cur))) by {
                    let a = done.push(open);
                    let b = done.push(cur);
                    assert forall|k: int| 0 <= k < b.len() implies (#[trigger] b[k]).start
                        < b[k].end by {
                        assert(a[k].start < a[k].end);
                    }
                    assert forall|k: int, l: int| 0 <= k < l < b.len() implies (
                    #[trigger] b[k]).end < (#[trigger] b[l]).start by {
                        assert(a[k].end < a[l].start);
                    }
                }
            }
        } else {
            merged.push(cur);
            cur = next;
            proof {
                assert forall|j: int| covers(merged@.push(cur), j) == covers(
                    sorted@.take(i + 1),
                    j,
                ) by {
                    lemma_covers_push(merged@, cur, j);
                    lemma_covers_push(sorted@.take(i as int), next, j);
                }
                assert(is_merged(merged@.push(cur))) by {
                    let a = done.push(open);
                    let b = merged@.push(cur);
                    assert forall|k: int| 0 <= k < b.len() implies (#[trigger] b[k]).start
                        < b[k].end by {
                        if k < a.len() {
                            assert(a[k].start < a[k].end);
                        }
                    }
                    assert forall|k: int, l: int| 0 <= k < l < b.len() implies (
                    #[trigger] b[k]).end < (#[trigger] b[l]).start by {
                        if l < a.len() {
                            assert(a[k].end < a[l].start);
                        } else if k < done.len() {
                            assert(a[k].end < a[done.len() as int].start);
                        }
                    }
                }
            }
        }
        i += 1;
    }
    assert(sorted@.take(i as int) =~= sorted@);
    merged.push(cur);
    merged
}

/// Whether one of `ranges` holds offset `j`.
fn is_covered(ranges: &Vec<MatchIdx>, j: usize) -> (r: bool)
    ensures
        r == covers(ranges@, j as int),
{
    let mut k: usize = 0;
    while k < ranges.len()
        invariant
            k <= ranges.len(),
            forall|l: int| 0 <= l < k ==> !holds(#[trigger] ranges@[l], j as int),
        decreases ranges.len() - k,
    {
        if ranges[k].start <= j && j < ranges[k].end {
            return true;
        }
        k += 1;
    }
    false
}

/// `basename` with the characters highlighted that begin at an offset
/// that `idxs` cover.
pub fn wrap_matches_in_color(basename: &str, idxs: Vec<MatchIdx>) -> (text: String)
    ensures
        text@ == colored(basename@, idxs@),
{
    let total = basename.as_bytes().len();
    assert(encode_utf8(basename@).len() == total);
    let chars = chars_of(basename);
    let offsets = byte_offsets(&chars);
    let mut text = String::new();
    let mut inside = false;
    let mut j: usize = 0;
    let ghost covered = |j: int| covers(idxs@, byte_offset(basename@, j) as int);
    while j < chars.len()
        invariant
            j <= chars.len(),
            chars@ == basename@,
            offsets.len() == chars.len() + 1,
            forall|k: int| 0 <= k <= chars.len() ==> #[trigger] offsets[k] == byte_offset(chars@, k),
            covered == |j: int| covers(idxs@, byte_offset(basename@, j) as int),
            inside == (j > 0 && covers(idxs@, byte_offset(basename@, j - 1) as int)),
            text@ == painted(chars@, covered, j as int),
        decreases chars.len() - j,
    {
        let here = is_covered(&idxs, offsets[j]);
        if here && !inside {
            text.append(BLUE);
        } else if !here && inside {
            text.append(RESET);
        }
        push_char(&mut text, chars[j]);
        inside = here;
        j += 1;
    }
    if inside {
        text.append(RESET);
    }
    text
}

/// `name` with every occurrence of one of `patterns` highlighted:
/// occurrences that overlap or touch make one span.
pub(crate) fn highlight_name(name: &str, patterns: &Vec<Vec<char>>) -> (text: String)
    ensures
        text@ == marked(name@, pattern_cover(name@, patterns.deep_view())),
{
    let ghost pats = patterns.deep_view();
    let total = name.as_bytes().len();
    assert(encode_utf8(name@).len() == total);
    let chars = chars_of(name);
    let idxs = chars_match_indices(patterns, &chars);
    let merged = merge_adjacent_indices(idxs);
    let ghost spans = merged@;
    let text = wrap_matches_in_color(name, merged);
    proof {
        assert(pats.len() == patterns.len());
        assert(pats.take(pats.len() as int) =~= pats);
        let by_spans = |j: int| covers(spans, byte_offset(name@, j) as int);
        let by_patterns = pattern_cover(name@, pats);
        assert forall|j: int| 0 <= j < name@.len() implies #[trigger] by_spans(j) == by_patterns(
            j,
        ) by {
            lemma_all_occurrences_cover(name@, pats, pats.len() as int, j);
        }
        lemma_painted_by_coverage(name@, by_spans, by_patterns, name@.len() as int);
    }
    text
}

/// Adding a range to a list adds the offsets it holds to those covered.
pub proof fn lemma_covers_push(ranges: Seq<MatchIdx>, range: MatchIdx, j: int)
    ensures
        covers(ranges.push(range), j) == (covers(ranges, j) || holds(range, j)),
{
    let longer = ranges.push(range);
    if covers(longer, j) {
        let k = choose|k: int| 0 <= k < longer.len() && holds(#[trigger] longer[k], j);
        if k < ranges.len() {
            assert(holds(ranges[k], j));
        }
    }
    if covers(ranges, j) {
        let k = choose|k: int| 0 <= k < ranges.len() && holds(#[trigger] ranges[k], j);
        assert(holds(longer[k], j));
    }
    if holds(range, j) {
        assert(holds(longer[ranges.len() as int], j));
    }
}

/// Putting a range into a list adds the offsets it holds to those covered.
pub proof fn lemma_covers_insert(ranges: Seq<MatchIdx>, at: int, range: MatchIdx, j: int)
    requires
        0 <= at <= ranges.len(),
    ensures
        covers(ranges.insert(at, range), j) == (covers(ranges, j) || holds(range, j)),
{
    let longer = ranges.insert(at, range);
    if covers(longer, j) {
        let k = choose|k: int| 0 <= k < longer.len() && holds(#[trigger] longer[k], j);
        if k < at {
            assert(holds(ranges[k], j));
        } else if k > at {
            assert(holds(ranges[k - 1], j));
        }
    }
    if covers(ranges, j) {
        let k = choose|k: int| 0 <= k < ranges.len() && holds(#[trigger] ranges[k], j);
        if k < at {
            assert(holds(longer[k], j));
        } else {
            assert(holds(longer[k + 1], j));
        }
    }
    if holds(range, j) {
        assert(holds(longer[at], j));
    }
}

/// Two lists of ranges laid end to end cover what either covers.
pub proof fn lemma_covers_add(a: Seq<MatchIdx>, b: Seq<MatchIdx>, j: int)
    ensures
        covers(a + b, j) == (covers(a, j) || covers(b, j)),
{
    let both = a + b;
    if covers(both, j) {
        let k = choose|k: int| 0 <= k < both.len() && holds(#[trigger] both[k], j);
        if k < a.len() {
            assert(holds(a[k], j));
        } else {
            assert(holds(b[k - a.len()], j));
        }
    }
    if covers(a, j) {
        let k = choose|k: int| 0 <= k < a.len() && holds(#[trigger] a[k], j);
        assert(holds(both[k], j));
    }
    if covers(b, j) {
        let k = choose|k: int| 0 <= k < b.len() && holds(#[trigger] b[k], j);
        assert(holds(both[k + a.len()], j));
    }
}

/// An occurrence of a pattern holds a character exactly if its range of
/// bytes holds the offset at which the character begins.
pub proof fn lemma_occurrence_holds(name: Seq<char>, at: int, len: int, j: int)
    requires
        encode_utf8(name).len() <= usize::MAX,
        0 <= at,
        0 <= len,
        at + len <= name.len(),
        0 <= j < name.len(),
    ensures
        holds(
            MatchIdx {
                start: byte_offset(name, at) as usize,
                end: byte_offset(name, at + len) as usize,
            },
            byte_offset(name, j) as int,
        ) == (at <= j < at + len),
{
    assert(name.take(name.len() as int) =~= name);
    lemma_byte_offset_grows(name, at, name.len() as int);
    lemma_byte_offset_grows(name, at + len, name.len() as int);
    if at <= j {
        lemma_byte_offset_grows(name, at, j);
    } else {
        lemma_byte_offset_grows(name, j, at);
    }
    if j < at + len {
        lemma_byte_offset_grows(name, j, at + len);
    } else {
        lemma_byte_offset_grows(name, at + len, j);
    }
}

/// The ranges of the occurrences of a pattern cover the offset at which a
/// character begins exactly if one of those occurrences holds the
/// character.
pub proof fn lemma_occurrences_cover(name: Seq<char>, pattern: Seq<char>, upto: int, j: int)
    requires
        encode_utf8(name).len() <= usize::MAX,
        0 <= j < name.len(),
    ensures
        covers(occurrences(name, pattern, upto), byte_offset(name, j) as int) == (exists|at: int|
            0 <= at < upto && #[trigger] occurs_at(name, pattern, at) && at <= j < at
                + pattern.len()),
    decreases upto,
{
    if upto > 0 {
        lemma_occurrences_cover(name, pattern, upto - 1, j);
        let before = occurrences(name, pattern, upto - 1);
        if occurs_at(name, pattern, upto - 1) {
            let range = MatchIdx {
                start: byte_offset(name, upto - 1) as usize,
                end: byte_offset(name, upto - 1 + pattern.len()) as usize,
            };
            lemma_covers_push(before, range, byte_offset(name, j) as int);
            lemma_occurrence_holds(name, upto - 1, pattern.len() as int, j);
        }
    }
}

/// The ranges that `match_indices` returns cover the offset at which a
/// character of the name begins exactly if an occurrence of one of the
/// patterns holds the character.
pub proof fn lemma_all_occurrences_cover(
    name: Seq<char>,
    patterns: Seq<Seq<char>>,
    n: int,
    j: int,
)
    requires
        encode_utf8(name).len() <= usize::MAX,
        0 <= n <= patterns.len(),
        0 <= j < name.len(),
    ensures
        covers(all_occurrences(name, patterns, n), byte_offset(name, j) as int) == pattern_covers(
            name,
            patterns.take(n),
            j,
        ),
    decreases n,
{
    let b = byte_offset(name, j) as int;
    if n > 0 {
        lemma_all_occurrences_cover(name, patterns, n - 1, j);
        lemma_occurrences_cover(name, patterns[n - 1], name.len() as int + 1, j);
        lemma_covers_add(
            all_occurrences(name, patterns, n - 1),
            occurrences(name, patterns[n - 1], name.len() as int + 1),
            b,
        );
        let fewer = patterns.take(n - 1);
        let these = patterns.take(n);
        if pattern_covers(name, these, j) {
            let (k, at) = choose|k: int, at: int|
                0 <= k < these.len() && #[trigger] occurs_at(name, these[k], at) && at <= j < at
                    + these[k].len();
            if k < n - 1 {
                assert(occurs_at(name, fewer[k], at));
            }
        }
        if pattern_covers(name, fewer, j) {
            let (k, at) = choose|k: int, at: int|
                0 <= k < fewer.len() && #[trigger] occurs_at(name, fewer[k], at) && at <= j < at
                    + fewer[k].len();
            assert(occurs_at(name, these[k], at));
        }
        if exists|at: int|
            0 <= at < name.len() + 1 && #[trigger] occurs_at(name, patterns[n - 1], at) && at <= j
                < at + patterns[n - 1].len() {
            let at = choose|at: int|
                0 <= at < name.len() + 1 && #[trigger] occurs_at(name, patterns[n - 1], at) && at
                    <= j < at + patterns[n - 1].len();
            assert(occurs_at(name, these[n - 1], at));
        }
    } else {
        assert(!covers(all_occurrences(name, patterns, n), b));
    }
}

/// The patterns of a reduction cover in a name what the kept patterns
/// cover.
pub proof fn lemma_reduction_covers(
    reduced: Seq<Seq<char>>,
    patterns: Seq<Seq<char>>,
    name: Seq<char>,
    j: int,
)
    requires
        is_reduction(reduced, patterns),
    ensures
        pattern_covers(name, reduced, j) == kept_covers(name, patterns, j),
{
    if pattern_covers(name, reduced, j) {
        let (k, at) = choose|k: int, at: int|
            0 <= k < reduced.len() && #[trigger] occurs_at(name, reduced[k], at) && at <= j < at
                + reduced[k].len();
        assert(reduced.contains(reduced[k]));
        assert(is_kept(patterns, reduced[k]));
    }
    if kept_covers(name, patterns, j) {
        let (p, at) = choose|p: Seq<char>, at: int|
            is_kept(patterns, p) && #[trigger] occurs_at(name, p, at) && at <= j < at + p.len();
        assert(reduced.contains(p));
        let k = choose|k: int| 0 <= k < reduced.len() && reduced[k] == p;
        assert(occurs_at(name, reduced[k], at));
    }
}

/// Markers depend on which characters of the text are covered, and on
/// nothing else.
pub proof fn lemma_painted_by_coverage(
    base: Seq<char>,
    a: spec_fn(int) -> bool,
    b: spec_fn(int) -> bool,
    upto: int,
)
    requires
        forall|j: int| 0 <= j < upto ==> #[trigger] a(j) == b(j),
    ensures
        painted(base, a, upto) == painted(base, b, upto),
    decreases upto,
{
    if upto > 0 {
        lemma_painted_by_coverage(base, a, b, upto - 1);
    }
}

} // verus!
