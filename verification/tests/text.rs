use fuzzy_tree::order::stable_order;
use fuzzy_tree::patterns::split_by_space;
use fuzzy_tree::text::{
    append_decimal, byte_offsets, char_is_whitespace, chars_less, chars_of, has_substring,
    same_chars, split_chars, split_whitespace, string_of,
};

fn chars(s: &str) -> Vec<char> {
    s.chars().collect()
}

#[test]
fn strings_and_characters_convert_both_ways() {
    for s in ["", "a", "sha1.js", "\u{e9}t\u{e9} \u{1f600}"] {
        assert_eq!(chars_of(s), chars(s));
        assert_eq!(string_of(&chars(s)), s);
    }
}

#[test]
fn substring_search_agrees_with_the_standard_library() {
    let hays = ["", "a", "abc", "aaa", "this/is/aaaa/paath.txt", "\u{e9}t\u{e9}"];
    let needles = ["", "a", "aa", "aaaa", "b", "bc", "c", "abcd", "paath", "t\u{e9}", "txt", "/"];
    for hay in hays {
        for needle in needles {
            assert_eq!(
                has_substring(&chars(hay), &chars(needle)),
                hay.contains(needle),
                "{:?} in {:?}",
                needle,
                hay
            );
        }
    }
}

#[test]
fn order_agrees_with_the_standard_library() {
    let texts = ["", "a", "ab", "b", "a/b", "a-b", "A", "\u{e9}", "z", "src", "src/main.rs"];
    for a in texts {
        for b in texts {
            assert_eq!(chars_less(&chars(a), &chars(b)), a < b, "{:?} < {:?}", a, b);
            assert_eq!(same_chars(&chars(a), &chars(b)), a == b);
        }
    }
}

#[test]
fn splitting_keeps_empty_pieces() {
    let pieces: Vec<String> = split_chars(&chars("/a//b/"), '/')
        .iter()
        .map(|p| p.iter().collect())
        .collect();
    assert_eq!(pieces, vec!["", "a", "", "b", ""]);
    assert_eq!(split_chars(&chars(""), '/'), vec![Vec::<char>::new()]);
    assert_eq!(split_chars(&chars("abc"), '/'), vec![chars("abc")]);
}

#[test]
fn words_are_runs_without_white_space() {
    let words: Vec<String> = split_whitespace(&chars("  ab \t c\u{a0}d\n"))
        .iter()
        .map(|p| p.iter().collect())
        .collect();
    assert_eq!(words, vec!["ab", "c", "d"]);
    assert!(split_whitespace(&chars("   ")).is_empty());
    assert!(split_whitespace(&chars("")).is_empty());
}

#[test]
fn query_is_split_at_white_space() {
    assert_eq!(split_by_space("src  main.rs "), vec!["src", "main.rs"]);
    assert_eq!(split_by_space("a\tb"), vec!["a", "b"]);
    assert_eq!(split_by_space(""), Vec::<String>::new());
    assert_eq!(split_by_space(" "), Vec::<String>::new());
}

#[test]
fn white_space_is_what_the_standard_library_calls_so() {
    for u in 0..0x3100u32 {
        if let Some(c) = char::from_u32(u) {
            assert_eq!(char_is_whitespace(c), c.is_whitespace(), "{:x}", u);
        }
    }
    assert!(!char_is_whitespace('\u{feff}'));
    assert!(!char_is_whitespace('\u{10ffff}'));
}

#[test]
fn decimal_numerals() {
    for n in [0usize, 7, 9, 10, 11, 99, 100, 101, 12345, usize::MAX] {
        let mut s = String::from("n=");
        append_decimal(&mut s, n);
        assert_eq!(s, format!("n={}", n));
    }
}

#[test]
fn characters_begin_at_their_byte_offsets() {
    let text = "a\u{e9}\u{65e5}\u{1f600}b";
    let expected: Vec<usize> = text
        .char_indices()
        .map(|(at, _)| at)
        .chain(std::iter::once(text.len()))
        .collect();
    assert_eq!(byte_offsets(&chars(text)), expected);
    assert_eq!(byte_offsets(&chars(text)), vec![0, 1, 3, 6, 10, 11]);
    assert_eq!(byte_offsets(&chars("")), vec![0]);
}

#[test]
fn stable_order_agrees_with_a_stable_sort() {
    let names = [
        "tmp", "src/main.rs", "src", "src-old", "a", "src", "", "b/c", "a", "b", "src/lib.rs",
        "\u{e9}", "z", "B", "a/b", "a-b", "src",
    ];
    let keys: Vec<Vec<char>> = names.iter().map(|n| chars(n)).collect();
    let mut expected: Vec<usize> = (0..names.len()).collect();
    expected.sort_by(|a, b| names[*a].cmp(names[*b]));
    assert_eq!(stable_order(&keys), expected);
    assert_eq!(stable_order(&Vec::new()), Vec::<usize>::new());
    assert_eq!(stable_order(&vec![chars("x")]), vec![0]);
}
