use fuzzy_tree::highlight::{
    match_indices, merge_adjacent_indices, wrap_matches_in_color, BLUE, MatchIdx, RESET,
};
use fuzzy_tree::matching::{match_paths, match_stack, push_seen};
use fuzzy_tree::path::Path;
use fuzzy_tree::patterns::reduce_patterns;
use fuzzy_tree::tree::Tree;

fn strings(items: &[&str]) -> Vec<String> {
    items.iter().map(|x| x.to_string()).collect()
}

#[test]
fn reducing_patterns() {
    assert_eq!(reduce_patterns(&strings(&["abc", "def"])), vec!["abc", "def"]);
    assert_eq!(reduce_patterns(&strings(&["abc", "abc"])), vec!["abc"]);
    assert_eq!(reduce_patterns(&strings(&["aaa", "aaaa", "a"])), vec!["aaaa"]);
    assert_eq!(
        reduce_patterns(&strings(&["apa", "aaaa", "a"])),
        vec!["aaaa", "apa"]
    );
}

#[test]
fn match_paths_sets_matched_field_correctly() {
    let mut paths = vec![
        Path::new("this/is/aaaa/paath.txt".to_string(), false),
        Path::new("this/is/aaaa/paath.txt".to_string(), false),
        Path::new("this/is/aaaa/file.ext".to_string(), false),
    ];
    for p in &mut paths {
        p.matched = false;
    }
    match_paths(&mut paths, &strings(&["aaaa", "this", "paath.txt"]));
    assert!(paths[0].matched);
    assert!(paths[1].matched);
    assert!(!paths[2].matched);

    assert_eq!(Tree::from_paths(paths).calc_n_matches(), 2);
}

#[test]
fn match_paths_colors_basename() {
    let mut paths = vec![
        Path::new("this/is/file.rs".to_string(), false),
        Path::new("this/is/fxiyle.xrs".to_string(), false),
    ];

    match_paths(&mut paths, &strings(&["file.rs"]));
    assert_eq!(paths[0].match_text, format!("{}file.rs{}", BLUE, RESET));

    match_paths(&mut paths, &strings(&["x", "y"]));
    assert_eq!(
        paths[1].match_text,
        format!(
            "f{}x{}i{}y{}le.{}x{}rs",
            BLUE, RESET, BLUE, RESET, BLUE, RESET
        )
    );
}

#[test]
fn merging_indices_works() {
    let created: Vec<Vec<MatchIdx>> = vec![
        vec![MatchIdx { start: 0, end: 1 }, MatchIdx { start: 1, end: 2 }],
        vec![
            MatchIdx { start: 6, end: 12 },
            MatchIdx { start: 1, end: 6 },
        ],
        vec![
            MatchIdx { start: 6, end: 12 },
            MatchIdx { start: 1, end: 6 },
            MatchIdx { start: 33, end: 36 },
        ],
    ]
    .into_iter()
    .map(merge_adjacent_indices)
    .collect();

    let expected = vec![
        vec![MatchIdx { start: 0, end: 2 }],
        vec![MatchIdx { start: 1, end: 12 }],
        vec![
            MatchIdx { start: 1, end: 12 },
            MatchIdx { start: 33, end: 36 },
        ],
    ];

    assert_eq!(created, expected);
}

#[test]
fn adjacent_matches_are_colored_correctly() {
    let mut paths = vec![Path::new("path/sha1.js".to_string(), false)];
    match_paths(&mut paths, &strings(&["s", "ha"]));
    assert_eq!(
        paths[0].match_text,
        format!("{}sha{}1.j{}s{}", BLUE, RESET, BLUE, RESET)
    );
}

#[test]
fn matches_all_or_any() {
    let patterns = strings(&["src", "rs"]);
    assert!(fuzzy_tree::patterns::matches("src/main.rs", &patterns, true));
    assert!(!fuzzy_tree::patterns::matches("src/main.c", &patterns, true));
    assert!(fuzzy_tree::patterns::matches("src/main.c", &patterns, false));
    assert!(!fuzzy_tree::patterns::matches("lib/main.c", &patterns, false));
    assert!(fuzzy_tree::patterns::matches("anything", &Vec::new(), true));
    assert!(!fuzzy_tree::patterns::matches("anything", &Vec::new(), false));
    assert!(fuzzy_tree::patterns::matches("", &strings(&[""]), true));
}

#[test]
fn match_indices_lists_every_occurrence() {
    assert_eq!(
        match_indices(&strings(&["a", "ab"]), "abab"),
        vec![
            MatchIdx { start: 0, end: 1 },
            MatchIdx { start: 2, end: 3 },
            MatchIdx { start: 0, end: 2 },
            MatchIdx { start: 2, end: 4 },
        ]
    );
    assert_eq!(
        match_indices(&strings(&["aa"]), "aaa"),
        vec![MatchIdx { start: 0, end: 2 }, MatchIdx { start: 1, end: 3 }]
    );
    assert_eq!(match_indices(&strings(&["x"]), "abab"), Vec::new());
    assert_eq!(match_indices(&Vec::new(), "abab"), Vec::new());
}

#[test]
fn merging_joins_overlaps_and_drops_empty_ranges() {
    assert_eq!(
        merge_adjacent_indices(vec![
            MatchIdx { start: 4, end: 9 },
            MatchIdx { start: 0, end: 2 },
            MatchIdx { start: 1, end: 5 },
            MatchIdx { start: 7, end: 7 },
            MatchIdx { start: 12, end: 11 },
            MatchIdx { start: 20, end: 21 },
            MatchIdx { start: 5, end: 6 },
        ]),
        vec![MatchIdx { start: 0, end: 9 }, MatchIdx { start: 20, end: 21 }]
    );
    assert_eq!(merge_adjacent_indices(Vec::new()), Vec::new());
    assert_eq!(
        merge_adjacent_indices(vec![MatchIdx { start: 3, end: 3 }]),
        Vec::new()
    );
}

#[test]
fn wrapping_without_ranges_is_the_plain_name() {
    assert_eq!(wrap_matches_in_color("sha1.js", Vec::new()), "sha1.js");
    assert_eq!(wrap_matches_in_color("", vec![MatchIdx { start: 0, end: 1 }]), "");
}

#[test]
fn wrapping_marks_each_span() {
    let spans = vec![MatchIdx { start: 0, end: 3 }, MatchIdx { start: 6, end: 7 }];
    assert_eq!(
        wrap_matches_in_color("sha1.js", spans),
        format!("{}sha{}1.j{}s{}", BLUE, RESET, BLUE, RESET)
    );
    let spans = vec![MatchIdx { start: 2, end: 4 }];
    assert_eq!(
        wrap_matches_in_color("abcdef", spans),
        format!("ab{}cd{}ef", BLUE, RESET)
    );
}

#[test]
fn highlighting_counts_characters() {
    let mut paths = vec![Path::new("d/\u{e9}t\u{e9}.txt".to_string(), false)];
    match_paths(&mut paths, &strings(&["t\u{e9}"]));
    assert_eq!(
        paths[0].match_text,
        format!("\u{e9}{}t\u{e9}{}.txt", BLUE, RESET)
    );
}

#[test]
fn push_seen_tells_what_is_new() {
    let mut seen = vec![false, false, true];
    assert!(push_seen(&mut seen, 0));
    assert!(!push_seen(&mut seen, 0));
    assert!(!push_seen(&mut seen, 2));
    assert_eq!(seen, vec![true, false, true]);
}

#[test]
fn match_stack_climbs_to_the_first_seen_node() {
    let names = [".", "./a", "./a/b", "./a/b/c", "./d"];
    let mut paths: Vec<Path> = names.iter().map(|n| Path::from(n, true)).collect();
    fuzzy_tree::tree::link_paths(&mut paths);
    for p in &mut paths {
        p.matched = false;
    }
    let mut seen = vec![false; 5];
    assert_eq!(match_stack(&mut paths, 3, &mut seen), 4);
    assert_eq!(seen, vec![true, true, true, true, false]);
    assert!(paths[0].matched && paths[1].matched && paths[2].matched && paths[3].matched);
    assert!(!paths[4].matched);
    assert_eq!(match_stack(&mut paths, 4, &mut seen), 1);
    for p in &mut paths {
        p.matched = false;
    }
    let mut seen = vec![false, true, false, false, false];
    assert_eq!(match_stack(&mut paths, 3, &mut seen), 2);
    assert_eq!(seen, vec![false, true, true, true, false]);
    assert!(!paths[0].matched && !paths[1].matched && paths[2].matched && paths[3].matched);
}

#[test]
fn match_paths_shows_the_ancestors_of_a_hit() {
    let names = [".", "./a", "./a/b", "./a/b/c", "./d"];
    let mut paths: Vec<Path> = names.iter().map(|n| Path::from(n, true)).collect();
    fuzzy_tree::tree::link_paths(&mut paths);
    for p in &mut paths {
        p.matched = false;
    }
    match_paths(&mut paths, &strings(&["c"]));
    let shown: Vec<bool> = paths.iter().map(|p| p.matched).collect();
    assert_eq!(shown, vec![true, true, true, true, false]);
    assert_eq!(paths[2].match_text, "b");
}

#[test]
fn match_indices_counts_bytes() {
    let name = "\u{e9}t\u{e9}.t\u{65e5}t";
    let found = match_indices(&strings(&["t", "\u{e9}"]), name);
    let mut expected = Vec::new();
    for pattern in ["t", "\u{e9}"] {
        for (start, part) in name.match_indices(pattern) {
            expected.push(MatchIdx {
                start,
                end: start + part.len(),
            });
        }
    }
    assert_eq!(found, expected);
    assert_eq!(
        found,
        vec![
            MatchIdx { start: 2, end: 3 },
            MatchIdx { start: 6, end: 7 },
            MatchIdx { start: 10, end: 11 },
            MatchIdx { start: 0, end: 2 },
            MatchIdx { start: 3, end: 5 },
        ]
    );
}

#[test]
fn wrapping_reads_ranges_as_bytes() {
    let name = "\u{e9}t\u{e9}.txt";
    let spans = vec![MatchIdx { start: 2, end: 5 }];
    assert_eq!(
        wrap_matches_in_color(name, spans),
        format!("\u{e9}{}t\u{e9}{}.txt", BLUE, RESET)
    );
}
