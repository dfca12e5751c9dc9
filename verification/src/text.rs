//! Character sequences: conversion between strings and character vectors,
//! substring search, splitting, lexicographic order and decimal numerals.
//!
//! Every contract in the crate that speaks of text speaks of `Seq<char>`,
//! the view of `String`, `str` and `Vec<char>` alike.

use vstd::prelude::*;
use vstd::utf8::{encode_scalar, encode_utf8};

verus! {

/// `needle` occurs in `hay` starting at offset `at`.
pub open spec fn occurs_at(hay: Seq<char>, needle: Seq<char>, at: int) -> bool {
    &&& 0 <= at
    &&& at + needle.len() <= hay.len()
    &&& hay.subrange(at, at + needle.len()) == needle
}

/// `needle` is a contiguous run of `hay`. The empty sequence is a substring
/// of every sequence.
pub open spec fn is_substring(needle: Seq<char>, hay: Seq<char>) -> bool {
    exists|at: int| #[trigger] occurs_at(hay, needle, at)
}

/// Strict lexicographic order on character sequences, characters compared
/// by scalar value. A proper prefix comes before every extension of it.
pub open spec fn lex_less(a: Seq<char>, b: Seq<char>) -> bool
    decreases a.len(),
{
    if b.len() == 0 {
        false
    } else if a.len() == 0 {
        true
    } else if a[0] != b[0] {
        a[0] < b[0]
    } else {
        lex_less(a.drop_first(), b.drop_first())
    }
}

/// The pieces of `s` between separators, built from the left: every
/// character for which `sep` holds closes the current piece and opens an
/// empty one. A sequence with `k` separators has `k + 1` pieces.
pub open spec fn split_where(s: Seq<char>, sep: spec_fn(char) -> bool) -> Seq<Seq<char>>
    decreases s.len(),
{
    if s.len() == 0 {
        seq![Seq::<char>::empty()]
    } else {
        let before = split_where(s.drop_last(), sep);
        if sep(s.last()) {
            before.push(Seq::<char>::empty())
        } else {
            before.drop_last().push(before.last().push(s.last()))
        }
    }
}

/// The pieces of `s` between occurrences of the character `sep`.
pub open spec fn split_on(s: Seq<char>, sep: char) -> Seq<Seq<char>> {
    split_where(s, |c: char| c == sep)
}

/// `pieces` without its empty members, order kept.
pub open spec fn non_empty(pieces: Seq<Seq<char>>) -> Seq<Seq<char>> {
    pieces.filter(|p: Seq<char>| p.len() > 0)
}

/// `pieces` laid end to end with one `sep` between neighbours.
pub open spec fn join(pieces: Seq<Seq<char>>, sep: char) -> Seq<char>
    decreases pieces.len(),
{
    if pieces.len() == 0 {
        Seq::<char>::empty()
    } else if pieces.len() == 1 {
        pieces[0]
    } else {
        join(pieces.drop_last(), sep).push(sep) + pieces.last()
    }
}

/// The code points with the Unicode `White_Space` property.
pub open spec fn is_whitespace(c: char) -> bool {
    let u = c as u32;
    ||| 0x09 <= u <= 0x0d
    ||| u == 0x20
    ||| u == 0x85
    ||| u == 0xa0
    ||| u == 0x1680
    ||| 0x2000 <= u <= 0x200a
    ||| u == 0x2028
    ||| u == 0x2029
    ||| u == 0x202f
    ||| u == 0x205f
    ||| u == 0x3000
}

/// The decimal digit `d` as a character.
pub open spec fn digit_char(d: nat) -> char
    recommends
        d < 10,
{
    ((d + 0x30) as u8) as char
}

/// The decimal numeral of `n`, without sign or leading zeros.
pub open spec fn decimal(n: nat) -> Seq<char>
    decreases n,
{
    if n < 10 {
        seq![digit_char(n)]
    } else {
        decimal(n / 10).push(digit_char(n % 10))
    }
}

/// Appends one character to a string.
///
/// Stands for `String::push`, which the standard library documents as
/// appending the given `char` to the end of the string. The contract says
/// exactly that, and it is taken on trust.
#[verifier::external_body]
pub(crate) fn push_char(s: &mut String, c: char)
    ensures
        final(s)@ == old(s)@.push(c),
{
    s.push(c)
}

/// The characters of `s`, in order.
pub fn chars_of(s: &str) -> (v: Vec<char>)
    ensures
        v@ == s@,
{
    let mut v: Vec<char> = Vec::new();
    for c in it: s.chars()
        invariant
            it.seq() == s@,
            v@ == it.seq().take(it.index() as int),
    {
        v.push(c);
    }
    assert(v@ == s@);
    v
}

/// The string made of the characters of `v`, in order.
pub fn string_of(v: &Vec<char>) -> (s: String)
    ensures
        s@ == v@,
{
    let mut s = String::new();
    let mut i: usize = 0;
    while i < v.len()
        invariant
            i <= v.len(),
            s@ == v@.take(i as int),
        decreases v.len() - i,
    {
        push_char(&mut s, v[i]);
        i += 1;
    }
    s
}

/// Appends the characters of `tail` to `s`.
pub fn push_chars(s: &mut String, tail: &Vec<char>)
    ensures
        final(s)@ == old(s)@ + tail@,
{
    let mut i: usize = 0;
    while i < tail.len()
        invariant
            i <= tail.len(),
            s@ == old(s)@ + tail@.take(i as int),
        decreases tail.len() - i,
    {
        push_char(s, tail[i]);
        i += 1;
    }
}

/// Whether `c` is a white-space character.
pub fn char_is_whitespace(c: char) -> (r: bool)
    ensures
        r == is_whitespace(c),
{
    let u: u32 = c as u32;
    (0x09 <= u && u <= 0x0d) || u == 0x20 || u == 0x85 || u == 0xa0 || u == 0x1680 || (0x2000 <= u
        && u <= 0x200a) || u == 0x2028 || u == 0x2029 || u == 0x202f || u == 0x205f || u == 0x3000
}

/// Whether `needle` occurs in `hay` at offset `at`.
pub fn found_at(hay: &Vec<char>, needle: &Vec<char>, at: usize) -> (r: bool)
    ensures
        r == occurs_at(hay@, needle@, at as int),
{
    if needle.len() > hay.len() || at > hay.len() - needle.len() {
        return false;
    }
    let mut k: usize = 0;
    while k < needle.len()
        invariant
            k <= needle.len(),
            at + needle.len() <= hay.len(),
            forall|j: int| 0 <= j < k ==> hay@[at + j] == needle@[j],
        decreases needle.len() - k,
    {
        if hay[at + k] != needle[k] {
            assert(hay@.subrange(at as int, at + needle.len())[k as int] != needle@[k as int]);
            return false;
        }
        k += 1;
    }
    assert(hay@.subrange(at as int, at + needle.len()) =~= needle@);
    true
}

/// Whether `needle` is a substring of `hay`.
pub fn has_substring(hay: &Vec<char>, needle: &Vec<char>) -> (r: bool)
    ensures
        r == is_substring(needle@, hay@),
{
    if needle.len() > hay.len() {
        return false;
    }
    let last: usize = hay.len() - needle.len();
    let mut at: usize = 0;
    loop
        invariant
            at <= last,
            last == hay.len() - needle.len(),
            forall|j: int| 0 <= j < at ==> !occurs_at(hay@, needle@, j),
        decreases last - at,
    {
        if found_at(hay, needle, at) {
            return true;
        }
        if at == last {
            return false;
        }
        at += 1;
    }
}

/// Whether two character vectors hold the same characters.
pub fn same_chars(a: &Vec<char>, b: &Vec<char>) -> (r: bool)
    ensures
        r == (a@ == b@),
{
    if a.len() != b.len() {
        return false;
    }
    let r = found_at(a, b, 0);
    proof {
        if r {
            assert(a@.subrange(0, b@.len() as int) =~= a@);
        } else if a@ == b@ {
            assert(a@.subrange(0, b@.len() as int) =~= a@);
        }
    }
    r
}

/// Whether `a` comes strictly before `b` in lexicographic order.
pub fn chars_less(a: &Vec<char>, b: &Vec<char>) -> (r: bool)
    ensures
        r == lex_less(a@, b@),
{
    let mut i: usize = 0;
    assert(a@.skip(0) =~= a@ && b@.skip(0) =~= b@);
    loop
        invariant
            i <= a.len(),
            i <= b.len(),
            lex_less(a@, b@) == lex_less(a@.skip(i as int), b@.skip(i as int)),
        decreases a.len() - i,
    {
        if i == b.len() {
            return false;
        }
        if i == a.len() {
            return true;
        }
        assert(a@.skip(i as int)[0] == a@[i as int] && b@.skip(i as int)[0] == b@[i as int]);
        if a[i] != b[i] {
            return a[i] < b[i];
        }
        assert(a@.skip(i as int).drop_first() =~= a@.skip(i + 1));
        assert(b@.skip(i as int).drop_first() =~= b@.skip(i + 1));
        i += 1;
    }
}

/// The pieces of `s` between occurrences of `sep`.
pub fn split_chars(s: &Vec<char>, sep: char) -> (pieces: Vec<Vec<char>>)
    ensures
        pieces.deep_view() == split_on(s@, sep),
{
    let mut done: Vec<Vec<char>> = Vec::new();
    let mut cur: Vec<char> = Vec::new();
    let mut i: usize = 0;
    while i < s.len()
        invariant
            i <= s.len(),
            done.deep_view().push(cur@) == split_on(s@.take(i as int), sep),
        decreases s.len() - i,
    {
        let c = s[i];
        proof {
            assert(s@.take(i + 1).drop_last() =~= s@.take(i as int));
            assert(done.deep_view().push(cur@).drop_last() =~= done.deep_view());
        }
        if c == sep {
            let ghost before = done.deep_view();
            let ghost piece = cur@;
            done.push(cur);
            cur = Vec::new();
            assert(done.deep_view() =~~= before.push(piece));
        } else {
            cur.push(c);
        }
        i += 1;
    }
    assert(s@.take(s.len() as int) =~= s@);
    let ghost before = done.deep_view();
    let ghost last = cur@;
    done.push(cur);
    assert(done.deep_view() =~~= before.push(last));
    done
}

/// The runs of characters of `s` that hold no white space.
pub fn split_whitespace(s: &Vec<char>) -> (words: Vec<Vec<char>>)
    ensures
        words.deep_view() == non_empty(split_where(s@, |c: char| is_whitespace(c))),
{
    let ghost sep = |c: char| is_whitespace(c);
    let mut done: Vec<Vec<char>> = Vec::new();
    let mut cur: Vec<char> = Vec::new();
    let mut i: usize = 0;
    while i < s.len()
        invariant
            i <= s.len(),
            sep == |c: char| is_whitespace(c),
            split_where(s@.take(i as int), sep).len() > 0,
            done.deep_view() == non_empty(split_where(s@.take(i as int), sep).drop_last()),
            cur@ == split_where(s@.take(i as int), sep).last(),
        decreases s.len() - i,
    {
        let c = s[i];
        let ghost pieces = split_where(s@.take(i as int), sep);
        proof {
            assert(s@.take(i + 1).drop_last() =~= s@.take(i as int));
            assert(pieces.drop_last().push(pieces.last()) =~= pieces);
        }
        if char_is_whitespace(c) {
            proof {
                assert(pieces.push(Seq::<char>::empty()).drop_last() =~= pieces);
                pieces.drop_last().lemma_filter_push(pieces.last(), |p: Seq<char>| p.len() > 0);
            }
            if cur.len() > 0 {
                let ghost before = done.deep_view();
                let ghost word = cur@;
                done.push(cur);
                assert(done.deep_view() =~~= before.push(word));
            }
            cur = Vec::new();
        } else {
            cur.push(c);
            proof {
                let next = pieces.drop_last().push(pieces.last().push(c));
                assert(next.drop_last() =~= pieces.drop_last());
            }
        }
        i += 1;
    }
    proof {
        assert(s@.take(s.len() as int) =~= s@);
        let pieces = split_where(s@, sep);
        assert(pieces.drop_last().push(pieces.last()) =~= pieces);
        pieces.drop_last().lemma_filter_push(pieces.last(), |p: Seq<char>| p.len() > 0);
    }
    if cur.len() > 0 {
        let ghost before = done.deep_view();
        let ghost word = cur@;
        done.push(cur);
        assert(done.deep_view() =~~= before.push(word));
    }
    done
}

/// Appends the decimal numeral of `n` to `out`.
pub fn push_decimal(out: &mut Vec<char>, n: usize)
    ensures
        final(out)@ == old(out)@ + decimal(n as nat),
    decreases n,
{
    if n >= 10 {
        push_decimal(out, n / 10);
    }
    let d: u8 = (n % 10) as u8;
    out.push((d + 0x30) as char);
    proof {
        if n >= 10 {
            assert(old(out)@ + decimal(n as nat) =~= (old(out)@ + decimal((n / 10) as nat)).push(
                digit_char((n % 10) as nat),
            ));
        } else {
            assert(old(out)@ + decimal(n as nat) =~= old(out)@.push(digit_char(n as nat)));
        }
    }
}

/// Appends the decimal numeral of `n` to `s`.
pub fn append_decimal(s: &mut String, n: usize)
    ensures
        final(s)@ == old(s)@ + decimal(n as nat),
{
    let mut digits: Vec<char> = Vec::new();
    push_decimal(&mut digits, n);
    assert(digits@ =~= decimal(n as nat));
    push_chars(s, &digits);
}

/// `pieces` without its empty members, order kept.
pub fn drop_empty(pieces: Vec<Vec<char>>) -> (kept: Vec<Vec<char>>)
    ensures
        kept.deep_view() == non_empty(pieces.deep_view()),
{
    let ghost all = pieces.deep_view();
    let ghost source = pieces@;
    let ghost keep = |p: Seq<char>| p.len() > 0;
    let mut kept: Vec<Vec<char>> = Vec::new();
    let n = pieces.len();
    let mut i: usize = 0;
    assert(all.take(0).filter(keep) =~= Seq::empty()) by {
        all.take(0).lemma_filter_len(keep);
    }
    assert(kept.deep_view() =~= Seq::empty());
    for piece in it: pieces
        invariant
            it.seq() == source,
            source.len() == n,
            all.len() == n,
            forall|j: int| 0 <= j < n ==> #[trigger] all[j] == source[j]@,
            i == it.index(),
            keep == |p: Seq<char>| p.len() > 0,
            kept.deep_view() == all.take(i as int).filter(keep),
    {
        proof {
            assert(all[i as int] == piece@);
            assert(all.take(i + 1) =~= all.take(i as int).push(piece@));
            all.take(i as int).lemma_filter_push(piece@, keep);
        }
        if piece.len() > 0 {
            let ghost before = kept.deep_view();
            kept.push(piece);
            assert(kept.deep_view() =~~= before.push(all[i as int]));
        }
        i += 1;
    }
    assert(all.take(i as int) =~= all);
    kept
}

/// Nothing comes before itself.
pub proof fn lemma_lex_irreflexive(a: Seq<char>)
    ensures
        !lex_less(a, a),
    decreases a.len(),
{
    if a.len() > 0 {
        lemma_lex_irreflexive(a.drop_first());
    }
}

/// Of two different sequences one comes before the other.
pub proof fn lemma_lex_total(a: Seq<char>, b: Seq<char>)
    ensures
        a == b || lex_less(a, b) || lex_less(b, a),
    decreases a.len(),
{
    if a.len() == 0 || b.len() == 0 {
        if a.len() == 0 && b.len() == 0 {
            assert(a =~= b);
        }
    } else if a[0] == b[0] {
        lemma_lex_total(a.drop_first(), b.drop_first());
        if a.drop_first() == b.drop_first() {
            assert(a =~= seq![a[0]] + a.drop_first());
            assert(b =~= seq![b[0]] + b.drop_first());
        }
    }
}

/// The order is transitive.
pub proof fn lemma_lex_transitive(a: Seq<char>, b: Seq<char>, c: Seq<char>)
    requires
        lex_less(a, b),
        lex_less(b, c),
    ensures
        lex_less(a, c),
    decreases a.len(),
{
    if a.len() > 0 && b.len() > 0 && c.len() > 0 {
        if a[0] == b[0] && b[0] == c[0] {
            lemma_lex_transitive(a.drop_first(), b.drop_first(), c.drop_first());
        }
    }
}

/// Splitting never yields an empty list of pieces.
pub proof fn lemma_split_has_pieces(s: Seq<char>, sep: spec_fn(char) -> bool)
    ensures
        split_where(s, sep).len() > 0,
    decreases s.len(),
{
    if s.len() > 0 {
        lemma_split_has_pieces(s.drop_last(), sep);
    }
}

/// Splitting at a character never yields an empty list of pieces.
pub proof fn lemma_split_on_has_pieces(s: Seq<char>, sep: char)
    ensures
        split_on(s, sep).len() > 0,
{
    lemma_split_has_pieces(s, |c: char| c == sep);
}

/// The pieces of a split hold no separator, and joined by the separator
/// they give back what was split.
pub proof fn lemma_split_join(s: Seq<char>, sep: char)
    ensures
        join(split_on(s, sep), sep) == s,
        forall|k: int|
            0 <= k < split_on(s, sep).len() ==> !(#[trigger] split_on(s, sep)[k]).contains(sep),
    decreases s.len(),
{
    let is_sep = |c: char| c == sep;
    let pieces = split_on(s, sep);
    if s.len() == 0 {
        assert(join(pieces, sep) =~= s);
    } else {
        let before = split_on(s.drop_last(), sep);
        lemma_split_join(s.drop_last(), sep);
        lemma_split_has_pieces(s.drop_last(), is_sep);
        let c = s.last();
        assert(s =~= s.drop_last().push(c));
        if c == sep {
            assert(pieces.drop_last() =~= before);
            assert(join(pieces, sep) =~= join(before, sep).push(sep));
            assert forall|k: int| 0 <= k < pieces.len() implies !(#[trigger] pieces[k]).contains(
                sep,
            ) by {
                if k < before.len() {
                    assert(pieces[k] == before[k]);
                }
            }
        } else {
            let grown = before.last().push(c);
            assert(pieces.drop_last() =~= before.drop_last());
            if before.len() > 1 {
                assert(join(pieces, sep) =~= (join(before.drop_last(), sep).push(sep)
                    + before.last()).push(c));
            }
            assert forall|k: int| 0 <= k < pieces.len() implies !(#[trigger] pieces[k]).contains(
                sep,
            ) by {
                if k < before.len() - 1 {
                    assert(pieces[k] == before[k]);
                } else {
                    assert(!before[k].contains(sep));
                    if grown.contains(sep) {
                        let at = choose|at: int| 0 <= at < grown.len() && grown[at] == sep;
                        assert(before[k][at] == sep);
                    }
                }
            }
        }
    }
}

/// Joining a list of pieces behind a first piece puts the first piece and
/// a separator in front of what the list gives joined.
pub proof fn lemma_join_prepend(first: Seq<char>, rest: Seq<Seq<char>>, sep: char)
    requires
        rest.len() > 0,
    ensures
        join(seq![first] + rest, sep) == first.push(sep) + join(rest, sep),
    decreases rest.len(),
{
    let all = seq![first] + rest;
    if rest.len() == 1 {
        assert(all.drop_last() =~= seq![first]);
        assert(all.last() == rest[0]);
        assert(join(all, sep) == join(all.drop_last(), sep).push(sep) + all.last());
        assert(join(all, sep) =~= first.push(sep) + join(rest, sep));
    } else {
        lemma_join_prepend(first, rest.drop_last(), sep);
        assert(all.drop_last() =~= seq![first] + rest.drop_last());
        assert(all.last() == rest.last());
        let front = join(rest.drop_last(), sep);
        assert(join(rest, sep) == front.push(sep) + rest.last());
        assert(join(all, sep) == (first.push(sep) + front).push(sep) + rest.last());
        assert(join(all, sep) =~= first.push(sep) + join(rest, sep));
    }
}

/// The number of bytes that the first `k` characters of `s` take in
/// UTF-8: the offset in bytes at which character `k` begins.
pub open spec fn byte_offset(s: Seq<char>, k: int) -> nat {
    encode_utf8(s.take(k)).len()
}

/// The encoding of a text that ends in `c` is the encoding of what comes
/// before, followed by the encoding of `c`.
pub proof fn lemma_encode_push(s: Seq<char>, c: char)
    ensures
        encode_utf8(s.push(c)) == encode_utf8(s) + encode_scalar(c as u32),
    decreases s.len(),
{
    if s.len() == 0 {
        let one = s.push(c);
        assert(one.drop_first() =~= Seq::<char>::empty());
        assert(one[0] == c);
        assert(encode_utf8(one.drop_first()) =~= Seq::<u8>::empty());
        assert(encode_utf8(one) == encode_scalar(c as u32) + encode_utf8(one.drop_first()));
        assert(encode_utf8(s) =~= Seq::<u8>::empty());
        assert(encode_utf8(one) =~= encode_utf8(s) + encode_scalar(c as u32));
    } else {
        lemma_encode_push(s.drop_first(), c);
        assert(s.push(c).drop_first() =~= s.drop_first().push(c));
        assert(encode_utf8(s.push(c)) =~= encode_utf8(s) + encode_scalar(c as u32));
    }
}

/// Every character takes from one to four bytes, and the next character
/// begins that many bytes further on.
pub proof fn lemma_byte_offset_step(s: Seq<char>, k: int)
    requires
        0 <= k < s.len(),
    ensures
        byte_offset(s, k + 1) == byte_offset(s, k) + encode_scalar(s[k] as u32).len(),
        1 <= encode_scalar(s[k] as u32).len() <= 4,
{
    assert(s.take(k + 1) =~= s.take(k).push(s[k]));
    lemma_encode_push(s.take(k), s[k]);
}

/// A later character begins at a greater offset.
pub proof fn lemma_byte_offset_grows(s: Seq<char>, i: int, j: int)
    requires
        0 <= i <= j <= s.len(),
    ensures
        byte_offset(s, i) <= byte_offset(s, j),
        i < j ==> byte_offset(s, i) < byte_offset(s, j),
    decreases j - i,
{
    if i < j {
        lemma_byte_offset_grows(s, i, j - 1);
        lemma_byte_offset_step(s, j - 1);
    }
}

/// The number of bytes that `c` takes in UTF-8.
fn utf8_width(c: char) -> (w: usize)
    ensures
        w == encode_scalar(c as u32).len(),
{
    let u: u32 = c as u32;
    if u < 0x80 {
        1
    } else if u < 0x800 {
        2
    } else if u < 0x10000 {
        3
    } else {
        4
    }
}

/// The offsets in bytes at which the characters of `text` begin, and
/// behind them that at which the text ends.
pub fn byte_offsets(text: &Vec<char>) -> (offsets: Vec<usize>)
    requires
        encode_utf8(text@).len() <= usize::MAX,
    ensures
        offsets.len() == text.len() + 1,
        forall|k: int| 0 <= k <= text.len() ==> #[trigger] offsets[k] == byte_offset(text@, k),
{
    let mut offsets: Vec<usize> = Vec::new();
    let mut at: usize = 0;
    assert(text@.take(0) =~= Seq::<char>::empty());
    offsets.push(at);
    let mut k: usize = 0;
    while k < text.len()
        invariant
            k <= text.len(),
            encode_utf8(text@).len() <= usize::MAX,
            at == byte_offset(text@, k as int),
            offsets.len() == k + 1,
            forall|j: int| 0 <= j <= k ==> #[trigger] offsets[j] == byte_offset(text@, j),
        decreases text.len() - k,
    {
        proof {
            lemma_byte_offset_step(text@, k as int);
            lemma_byte_offset_grows(text@, k + 1, text.len() as int);
            assert(text@.take(text.len() as int) =~= text@);
        }
        at = at + utf8_width(text[k]);
        offsets.push(at);
        k += 1;
    }
    offsets
}

} // verus!
