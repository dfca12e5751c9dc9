use fuzzy_tree::highlight::{BLUE, RESET};
use fuzzy_tree::path::{add_child, Path, PathBehaviour};
use fuzzy_tree::tree::{link_paths, tree_string, Tree};

fn paths_of(names: &[&str]) -> Vec<Path> {
    let mut paths = Vec::new();
    for name in names {
        let is_dir = name.matches('.').count() == 1;
        paths.push(Path::from(name, is_dir));
    }
    paths
}

fn create_test_paths() -> Vec<Path> {
    paths_of(&[
        ".",
        "./A",
        "./B",
        "./src",
        "./src/bayes",
        "./src/bayes/blend.c",
        "./src/bayes/rand.c",
        "./src/cakes",
        "./src/cakes/a.c",
        "./src/cakes/b.c",
        "./x.txt",
    ])
}

fn create_test_tree(paths: &mut Vec<Path>) -> usize {
    add_child(paths, 0, 1);
    add_child(paths, 0, 2);
    add_child(paths, 0, 3);
    add_child(paths, 3, 4);
    add_child(paths, 4, 5);
    add_child(paths, 4, 6);
    add_child(paths, 3, 7);
    add_child(paths, 7, 8);
    add_child(paths, 7, 9);
    add_child(paths, 0, 10);
    0
}

/// Whether two trees are equal, node by node.
fn trees_equal(a: &Vec<Path>, at: usize, b: &Vec<Path>, bt: usize) -> bool {
    if a[at] != b[bt] {
        return false;
    }
    if a[at].children.len() != b[bt].children.len() {
        return false;
    }
    for (aa, bb) in a[at].children.iter().zip(b[bt].children.iter()) {
        if !trees_equal(a, *aa, b, *bb) {
            return false;
        }
    }
    true
}

#[test]
fn create_tree_correct() {
    let mut paths = create_test_paths();
    let tree = link_paths(&mut paths);
    let mut paths2 = create_test_paths();
    let tree2 = create_test_tree(&mut paths2);
    assert!(trees_equal(&paths, tree, &paths2, tree2));
}

#[test]
fn tree_string_correct() {
    let mut paths = create_test_paths();
    let tree = link_paths(&mut paths);
    let lines = tree_string(&paths, tree, paths.len());
    let expected = vec![
        " \u{f07c}  .",
        " ├── \u{f07c}  A",
        " ├── \u{f07c}  B",
        " ├── \u{f07c}  src",
        " │   ├── \u{f07c}  bayes",
        " │   │   ├── blend.c",
        " │   │   └── rand.c",
        " │   └── \u{f07c}  cakes",
        " │       ├── a.c",
        " │       └── b.c",
        " └── x.txt",
    ];
    assert_eq!(lines, expected);

    // Deselect `./src/bayes` and print again
    paths[4].matched = false;
    let lines = tree_string(&paths, tree, paths.len());
    let expected = vec![
        " \u{f07c}  .",
        " ├── \u{f07c}  A",
        " ├── \u{f07c}  B",
        " ├── \u{f07c}  src",
        " │   └── \u{f07c}  cakes",
        " │       ├── a.c",
        " │       └── b.c",
        " └── x.txt",
    ];
    assert_eq!(lines, expected);
}

#[test]
fn correct_lines_after_filtering() {
    let paths = create_test_paths();
    let mut tree = Tree::from_paths(paths);
    tree.filter("b");
    let lines = tree.as_lines();
    let colored = vec![
        format!("     ├── \u{f07c}  {}b{}ayes", BLUE, RESET),
        format!("     │   ├── {}b{}lend.c", BLUE, RESET),
        format!("         └── {}b{}.c", BLUE, RESET),
    ];
    let expected = vec![
        " \u{f07c}  .",
        " └── \u{f07c}  src",
        &colored[0],
        &colored[1],
        "     │   └── rand.c",
        "     └── \u{f07c}  cakes",
        &colored[2],
    ];
    assert_eq!(tree.calc_n_matches(), expected.len());
    assert_eq!(lines, expected);
}

#[test]
fn correct_n_matched_after_matching_with_empty_string() {
    let paths = create_test_paths();
    let mut tree = Tree::from_paths(paths);
    tree.filter("");
    assert_eq!(tree.calc_n_matches(), tree.paths.len());
}

#[test]
fn update_matched_test() {
    let paths = create_test_paths();
    let mut tree = Tree::from_paths(paths);

    tree.filter("tmp");
    assert_eq!(tree.calc_n_matches(), 0);

    tree.filter("src");
    assert_eq!(tree.calc_n_matches(), 8);

    let mut expected: Vec<usize> = (3..10).collect();
    expected.push(0);

    for (i, pth) in tree.paths.iter().enumerate() {
        let should_match = expected.contains(&i);
        assert_eq!(pth.matched, should_match);
    }
}

#[test]
fn correct_tree_string() {
    let paths = create_test_paths();
    let mut tree = Tree::from_paths(paths);
    tree.filter("XX");
    let response = tree.as_lines();
    let expected: Vec<String> = vec![];
    assert_eq!(response, expected);
}

#[test]
fn len_correct() {
    let s = "here/is/a/path.c";
    let path = Path::from(s, false);
    assert_eq!(path.len(), 4);
}

#[test]
fn basename_correct() {
    let s = "here/is/a/path.c";
    let path = Path::from(s, false);
    assert_eq!(path.basename(), "path.c");
}

#[test]
fn is_child_of_correctness() {
    let mut upper = Path::from("A", false);
    let mut lower = Path::from("B", false);
    assert!(!upper.is_child_of(&lower));

    upper = Path::from("src/bayes", true);
    lower = Path::from("src/bayes/blend.c", false);
    assert!(!upper.is_child_of(&lower));

    upper = Path::from("src/bayes", true);
    lower = Path::from("src/bayes/blend.c", false);
    assert!(lower.is_child_of(&upper));
}

#[test]
fn linking_pops_back_to_the_common_ancestor() {
    let mut paths = paths_of(&[".", "./a", "./a/b", "./a/b/c", "./d", "./d/e"]);
    link_paths(&mut paths);
    let parents: Vec<Option<usize>> = paths.iter().map(|p| p.parent).collect();
    assert_eq!(
        parents,
        vec![None, Some(0), Some(1), Some(2), Some(0), Some(4)]
    );
    assert_eq!(paths[0].children, vec![1, 4]);
    assert_eq!(paths[1].children, vec![2]);
    assert_eq!(paths[3].children, Vec::<usize>::new());
}

#[test]
fn linking_discards_old_links() {
    let mut paths = create_test_paths();
    link_paths(&mut paths);
    link_paths(&mut paths);
    let mut paths2 = create_test_paths();
    create_test_tree(&mut paths2);
    assert!(trees_equal(&paths, 0, &paths2, 0));
    assert_eq!(paths, paths2);
}

#[test]
fn a_node_outside_the_root_has_no_parent() {
    let mut paths = paths_of(&[".", "./a", "x", "./a/b", "./c"]);
    link_paths(&mut paths);
    let parents: Vec<Option<usize>> = paths.iter().map(|p| p.parent).collect();
    assert_eq!(parents, vec![None, Some(0), None, Some(1), Some(0)]);
    assert_eq!(paths[0].children, vec![1, 4]);
    assert_eq!(paths[1].children, vec![3]);
    assert_eq!(paths[2].children, Vec::<usize>::new());
}

#[test]
fn a_sibling_between_a_directory_and_its_child_does_not_part_them() {
    let mut paths = vec![
        Path::from(".", true),
        Path::from("./a", true),
        Path::from("./a.b", false),
        Path::from("./a/c", false),
    ];
    link_paths(&mut paths);
    assert_eq!(paths[3].parent, Some(1));
    assert_eq!(paths[1].children, vec![3]);
    assert_eq!(paths[0].children, vec![1, 2]);
    assert_eq!(paths[2].parent, Some(0));
    let lines = tree_string(&paths, 0, paths.len());
    let expected = vec![
        " \u{f07c}  .",
        " ├── \u{f07c}  a",
        " │   └── c",
        " └── a.b",
    ];
    assert_eq!(lines, expected);
}

#[test]
fn a_listing_with_such_a_sibling_is_linked_by_prefix() {
    let listing = b"a/c\na.b\na\nsrc\nsrc-old\nsrc/main.rs\n".to_vec();
    let tree =
        Tree::from_stdout(listing, &vec![false, false, true, true, true, false]).unwrap();
    let joined: Vec<&str> = tree.paths.iter().map(|p| p.joined.as_str()).collect();
    assert_eq!(
        joined,
        vec![".", "./a", "./a.b", "./a/c", "./src", "./src-old", "./src/main.rs"]
    );
    let parents: Vec<Option<usize>> = tree.paths.iter().map(|p| p.parent).collect();
    assert_eq!(
        parents,
        vec![None, Some(0), Some(0), Some(1), Some(0), Some(0), Some(4)]
    );
    let expected = vec![
        " \u{f07c}  .",
        " ├── \u{f07c}  a",
        " │   └── c",
        " ├── a.b",
        " ├── \u{f07c}  src",
        " │   └── main.rs",
        " └── \u{f07c}  src-old",
    ];
    assert_eq!(tree.as_lines(), expected);
}

#[test]
fn the_nearest_of_several_equal_prefixes_is_the_parent() {
    let mut paths = paths_of(&[".", "./a", "./a", "./a/b", "./a/b/c", "./a/d"]);
    link_paths(&mut paths);
    let parents: Vec<Option<usize>> = paths.iter().map(|p| p.parent).collect();
    assert_eq!(
        parents,
        vec![None, Some(0), Some(0), Some(2), Some(3), Some(2)]
    );
}

#[test]
fn collapse_leaves_what_is_no_directory_open() {
    let paths = vec![
        Path::from(".", true),
        Path::from("./a", false),
        Path::from("./a/b", false),
        Path::from("./a/c", false),
    ];
    let mut tree = Tree::from_paths(paths);
    tree.collapse_over(0);
    assert!(!tree.paths[0].open);
    assert!(tree.paths[1].open);
    assert_eq!(tree.paths[1].children, vec![2, 3]);
}

#[test]
fn from_paths_counts_what_is_shown_and_selected() {
    let mut paths = create_test_paths();
    paths[5].matched = false;
    paths[6].selected = true;
    paths[9].selected = true;
    let tree = Tree::from_paths(paths);
    assert_eq!(tree.n_paths, 11);
    assert_eq!(tree.n_matches, 10);
    assert_eq!(tree.n_selected, 2);
    assert_eq!(tree.info_line(), "(selected: 2, shown: 10, total: 11)");
}

#[test]
fn a_root_that_is_not_shown_is_not_displayed() {
    let mut paths = create_test_paths();
    let tree = link_paths(&mut paths);
    paths[0].matched = false;
    assert_eq!(tree_string(&paths, tree, paths.len()), Vec::<String>::new());
    let mut tree = Tree::from_paths(paths_of(&[".", "x"]));
    tree.filter("x");
    assert_eq!(tree.n_matches, 1);
    assert!(!tree.paths[0].matched);
    assert_eq!(tree.as_lines(), Vec::<String>::new());
    assert_eq!(tree.ith(0), None);
}

#[test]
fn linking_a_single_node() {
    let mut paths = paths_of(&["."]);
    assert_eq!(link_paths(&mut paths), 0);
    assert_eq!(paths[0].parent, None);
    assert!(paths[0].children.is_empty());
}

#[test]
fn tree_string_of_no_shown_nodes_is_empty() {
    let mut paths = create_test_paths();
    let tree = link_paths(&mut paths);
    assert_eq!(tree_string(&paths, tree, 0), Vec::<String>::new());
}

#[test]
fn tree_string_marks_selected_and_closed_nodes() {
    let mut paths = create_test_paths();
    let tree = link_paths(&mut paths);
    paths[3].open = false;
    paths[1].selected = true;
    let lines = tree_string(&paths, tree, paths.len());
    let expected = vec![
        " \u{f07c}  .",
        "\u{1b}[38;5;9m>\u{1b}[39m├── \u{f07c}  A",
        " ├── \u{f07c}  B",
        " ├── \u{f07b}  src",
        " └── x.txt",
    ];
    assert_eq!(lines, expected);
}

#[test]
fn empty_filter_shows_everything() {
    let mut tree = Tree::from_paths(create_test_paths());
    tree.filter("src");
    tree.filter("");
    assert_eq!(tree.n_matches, tree.n_paths);
    assert_eq!(tree.n_matches, 11);
    assert!(tree.paths.iter().all(|p| p.matched));
    assert_eq!(tree.paths[3].match_text, "src");
    assert_eq!(tree.as_lines().len(), 11);
}

#[test]
fn filter_of_white_space_shows_everything() {
    let mut tree = Tree::from_paths(create_test_paths());
    tree.filter("  ");
    assert_eq!(tree.n_matches, 11);
    assert_eq!(tree.paths[5].match_text, "blend.c");
}

#[test]
fn filter_drops_patterns_that_another_pattern_holds() {
    let mut tree = Tree::from_paths(create_test_paths());
    tree.filter("b blend");
    assert_eq!(tree.n_matches, 4);
    assert_eq!(tree.paths[5].match_text, format!("{}blend{}.c", BLUE, RESET));
    // "b" alone would have been highlighted in "bayes"; it has been dropped
    assert_eq!(tree.paths[4].match_text, "bayes");
    assert!(tree.paths[4].matched);
}

#[test]
fn filter_wants_every_pattern() {
    let mut tree = Tree::from_paths(create_test_paths());
    tree.filter("cakes a.c");
    assert_eq!(tree.n_matches, 4);
    let shown: Vec<usize> = (0..11).filter(|i| tree.paths[*i].matched).collect();
    assert_eq!(shown, vec![0, 3, 7, 8]);
    assert_eq!(tree.paths[8].match_text, format!("{}a.c{}", BLUE, RESET));
    assert_eq!(tree.paths[7].match_text, "cakes");
}

#[test]
fn filter_is_case_sensitive() {
    let mut tree = Tree::from_paths(create_test_paths());
    tree.filter("a");
    assert!(!tree.paths[1].matched);
    tree.filter("A");
    assert!(tree.paths[1].matched);
    assert_eq!(tree.n_matches, 2);
}

#[test]
fn overlapping_occurrences_make_one_span() {
    let mut paths = vec![Path::from("x/aaa", false), Path::from("x/abcd", false)];
    fuzzy_tree::matching::match_paths(&mut paths, &vec!["aa".to_string()]);
    assert_eq!(paths[0].match_text, format!("{}aaa{}", BLUE, RESET));
    let mut paths = vec![Path::from("x/abcd", false)];
    fuzzy_tree::matching::match_paths(&mut paths, &vec!["abc".to_string(), "bcd".to_string()]);
    assert_eq!(paths[0].match_text, format!("{}abcd{}", BLUE, RESET));
}

#[test]
fn info_line_counts() {
    let mut tree = Tree::from_paths(create_test_paths());
    assert_eq!(tree.info_line(), "(selected: 0, shown: 11, total: 11)");
    tree.filter("src");
    tree.flip_selected(1);
    assert_eq!(tree.info_line(), "(selected: 1, shown: 8, total: 11)");
}

#[test]
fn collapse_closes_directories_with_many_children() {
    let mut tree = Tree::from_paths(create_test_paths());
    tree.collapse_over(2);
    let open: Vec<bool> = tree.paths.iter().map(|p| p.open).collect();
    assert_eq!(
        open,
        vec![false, true, true, true, true, true, true, true, true, true, true]
    );
    assert_eq!(tree.as_lines(), vec![" \u{f07b}  ."]);
    tree.flip_open(0);
    assert_eq!(tree.as_lines().len(), 11);
}

#[test]
fn collapsed_directory_hides_its_descendants_until_it_is_opened() {
    let mut tree = Tree::from_paths(create_test_paths());
    tree.collapse_over(1);
    assert!(!tree.paths[3].open && !tree.paths[4].open && !tree.paths[7].open);
    tree.flip_open(0);
    let lines = tree.as_lines();
    let expected = vec![
        " \u{f07c}  .",
        " ├── \u{f07c}  A",
        " ├── \u{f07c}  B",
        " ├── \u{f07b}  src",
        " └── x.txt",
    ];
    assert_eq!(lines, expected);
    tree.flip_open(3);
    let lines = tree.as_lines();
    let expected = vec![
        " \u{f07c}  .",
        " ├── \u{f07c}  A",
        " ├── \u{f07c}  B",
        " ├── \u{f07c}  src",
        " │   ├── \u{f07b}  bayes",
        " │   └── \u{f07b}  cakes",
        " └── x.txt",
    ];
    assert_eq!(lines, expected);
}

#[test]
fn flip_selected_twice_restores_the_tree() {
    let mut tree = Tree::from_paths(create_test_paths());
    tree.flip_selected(4);
    assert!(tree.paths[4].selected);
    assert_eq!(tree.n_selected, 1);
    tree.flip_selected(6);
    assert_eq!(tree.n_selected, 2);
    tree.flip_selected(4);
    assert!(!tree.paths[4].selected);
    assert_eq!(tree.n_selected, 1);
    tree.flip_selected(6);
    assert_eq!(tree.n_selected, 0);
    assert!(tree.paths.iter().all(|p| !p.selected));
}

#[test]
fn flips_resolve_the_displayed_line() {
    let mut tree = Tree::from_paths(create_test_paths());
    tree.filter("cakes");
    // displayed: ., src, cakes, a.c, b.c
    assert_eq!(tree.ith(0), Some(0));
    assert_eq!(tree.ith(1), Some(3));
    assert_eq!(tree.ith(2), Some(7));
    assert_eq!(tree.ith(4), Some(9));
    assert_eq!(tree.ith(5), None);
    tree.flip_selected(3);
    assert!(tree.paths[8].selected);
    tree.flip_open(2);
    assert!(!tree.paths[7].open);
    assert_eq!(tree.ith(3), None);
}

#[test]
fn flips_out_of_range_do_nothing() {
    let mut tree = Tree::from_paths(create_test_paths());
    tree.flip_open(11);
    tree.flip_selected(11);
    tree.flip_selected(usize::MAX);
    assert_eq!(tree.n_selected, 0);
    assert!(tree.paths.iter().all(|p| p.open && !p.selected));
    tree.filter("tmp");
    tree.flip_open(0);
    tree.flip_selected(0);
    assert_eq!(tree.n_selected, 0);
    assert!(tree.paths.iter().all(|p| p.open && !p.selected));
}

#[test]
fn from_stdout_builds_the_tree_of_a_listing() {
    let listing = b"src/main.rs\nsrc\nREADME.md\nsrc/lib\nsrc/lib/a.rs\n".to_vec();
    let tree = Tree::from_stdout(listing, &vec![false, true, false, true, false]).unwrap();
    assert_eq!(tree.n_paths, 6);
    assert_eq!(tree.n_matches, 6);
    assert_eq!(tree.n_selected, 0);
    let lines = tree.as_lines();
    let expected = vec![
        " \u{f07c}  .",
        " ├── README.md",
        " └── \u{f07c}  src",
        "     ├── \u{f07c}  lib",
        "     │   └── a.rs",
        "     └── main.rs",
    ];
    assert_eq!(lines, expected);
    assert_eq!(tree.paths[5].joined, "./src/main.rs");
    assert_eq!(tree.paths[5].components, vec![".", "src", "main.rs"]);
}

#[test]
fn from_stdout_refuses_what_create_paths_refuses() {
    assert!(matches!(
        Tree::from_stdout(vec![0xff], &Vec::new()),
        Err(fuzzy_tree::path::ListingError::InvalidEncoding)
    ));
    assert!(matches!(
        Tree::from_stdout(b"a\n".to_vec(), &Vec::new()),
        Err(fuzzy_tree::path::ListingError::FlagCount)
    ));
}

#[test]
fn large_listing_is_handled() {
    let mut listing = String::new();
    let mut is_dir = Vec::new();
    for i in (0..200).rev() {
        for j in 0..100 {
            listing.push_str(&format!("d{}/f{}\n", i, j));
            is_dir.push(false);
        }
        listing.push_str(&format!("d{}\n", i));
        is_dir.push(true);
    }
    let mut tree = Tree::from_stdout(listing.into_bytes(), &is_dir).unwrap();
    assert_eq!(tree.n_paths, 20201);
    assert_eq!(tree.paths[0].children.len(), 200);
    assert_eq!(tree.paths[1].joined, "./d0");
    assert_eq!(tree.paths[1].children.len(), 100);
    assert_eq!(tree.as_lines().len(), 20201);
    tree.filter("d17 f5");
    // d17 and d170 to d179, each with f5 and f50 to f59
    assert_eq!(tree.n_matches, 1 + 11 * 12);
    tree.collapse_over(10);
    assert_eq!(tree.as_lines().len(), 1);
    tree.flip_open(0);
    assert_eq!(tree.as_lines().len(), 12);
    assert_eq!(tree.ith(11), Some(tree.paths.iter().position(|p| p.joined == "./d179").unwrap()));
}

#[test]
fn linking_agrees_with_a_plain_search_for_the_nearest_prefix() {
    let names = [
        ".", "./a", "./a", "./a.b", "./a.b/x", "./a/c", "./a/c/d", "./a/c.d", "./a/c/d/e",
        "x", "./b", "./a/c/f", "x/y", "./b/g", "./a.b/x/z", "./a/h", "./b-c", "./b/g/i", "./a",
        "./a/j", "./a/c/d/k",
    ];
    let mut paths = paths_of(&names);
    link_paths(&mut paths);
    for i in 0..paths.len() {
        let mut expected = None;
        for k in (0..i).rev() {
            if paths[i].is_child_of(&paths[k]) {
                expected = Some(k);
                break;
            }
        }
        assert_eq!(paths[i].parent, expected, "{}", names[i]);
    }
    for p in 0..paths.len() {
        let children: Vec<usize> = (0..paths.len())
            .filter(|c| paths[*c].parent == Some(p))
            .collect();
        assert_eq!(paths[p].children, children);
    }
}
