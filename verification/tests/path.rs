use fuzzy_tree::path::{
    add_child, add_parent, create_paths, listing_names, n_descendants, ListingError, Path,
    PathBehaviour,
};
use fuzzy_tree::tree::link_paths;

fn paths_of(names: &[&str]) -> Vec<Path> {
    let mut paths = Vec::new();
    for name in names {
        let is_dir = name.matches('.').count() == 1;
        paths.push(Path::from(name, is_dir));
    }
    paths
}

fn create_test_paths() -> Vec<Path> {
    paths_of(&[
        ".",
        "./A",
        "./B",
        "./src",
        "./src/bayes",
        "./src/bayes/blend.c",
        "./src/bayes/rand.c",
        "./src/cakes",
        "./src/cakes/a.c",
        "./src/cakes/b.c",
        "./x.txt",
    ])
}

#[test]
fn sorting_is_correct() {
    let mut path1;
    let mut path2;

    path1 = Path::from("here/is/a/path.c", false);
    path2 = Path::from("here/is/a/path.c", false);
    assert_eq!(path1, path2);

    path1 = Path::from("here/is/a", false);
    path2 = Path::from("here/is/a/path.c", false);
    assert!(path1 < path2);

    path1 = Path::from("here/is/a/fath.c", false);
    path2 = Path::from("here/is/a/path.c", false);
    assert!(path1 < path2);

    let mut paths = paths_of(&["src", "tmp", "src/main.rs"]);
    paths.sort_by(|a, b| a.partial_cmp(b).unwrap());
    let expected = paths_of(&["src", "src/main.rs", "tmp"]);
    assert_eq!(paths, expected);
}

#[test]
fn correct_n_descendants() {
    let mut paths = create_test_paths();
    let tree = link_paths(&mut paths);
    assert_eq!(n_descendants(&paths, tree), 10);
    assert_eq!(n_descendants(&paths, 3), 6);
}

#[test]
fn new_node_is_shown_open_and_unlinked() {
    let path = Path::new("src/bayes/blend.c".to_string(), false);
    assert_eq!(path.components, vec!["src", "bayes", "blend.c"]);
    assert_eq!(path.joined, "src/bayes/blend.c");
    assert_eq!(path.match_text, "blend.c");
    assert_eq!(path.parent, None);
    assert!(path.children.is_empty());
    assert!(!path.is_dir);
    assert!(path.open);
    assert!(path.matched);
    assert!(!path.selected);
}

#[test]
fn separators_at_the_ends_make_empty_components() {
    let path = Path::from("/a//b/", true);
    assert_eq!(path.components, vec!["", "a", "", "b", ""]);
    assert_eq!(path.len(), 5);
    assert_eq!(path.basename(), "");
    let empty = Path::from("", false);
    assert_eq!(empty.components, vec![""]);
}

#[test]
fn flip_open_toggles_only_open() {
    let mut path = Path::from("src", true);
    path.flip_open();
    assert!(!path.open);
    assert!(path.matched);
    path.flip_open();
    assert_eq!(path, Path::from("src", true));
}

#[test]
fn a_node_is_no_child_of_itself_nor_of_a_sibling() {
    let plain = Path::from("src/bayes", true);
    let twin = Path::from("src/bayes", true);
    let longer = Path::from("src/bayesian", true);
    let deep = Path::from("src/bayes/a/b", false);
    assert!(!plain.is_child_of(&twin));
    assert!(!longer.is_child_of(&plain));
    assert!(deep.is_child_of(&plain));
}

#[test]
fn add_child_and_add_parent_link_both_ways() {
    let mut paths = paths_of(&[".", "./A", "./B"]);
    add_child(&mut paths, 0, 1);
    add_parent(&mut paths, 2, 0);
    assert_eq!(paths[0].children, vec![1, 2]);
    assert_eq!(paths[0].n_children(), 2);
    assert_eq!(paths[1].parent, Some(0));
    assert_eq!(paths[2].parent, Some(0));
    assert_eq!(paths[1].n_children(), 0);
}

#[test]
fn listing_names_drops_empty_lines() {
    let names = listing_names(b"src\n\nsrc/main.rs\ntmp\n\n".to_vec());
    assert_eq!(
        names,
        Ok(vec![
            "src".to_string(),
            "src/main.rs".to_string(),
            "tmp".to_string()
        ])
    );
    assert_eq!(listing_names(Vec::new()), Ok(Vec::new()));
}

#[test]
fn listing_names_decodes_utf8() {
    let names = listing_names("r\u{e9}sum\u{e9}.txt\n\u{65e5}\u{672c}\n".as_bytes().to_vec());
    assert_eq!(
        names,
        Ok(vec![
            "r\u{e9}sum\u{e9}.txt".to_string(),
            "\u{65e5}\u{672c}".to_string()
        ])
    );
}

#[test]
fn listing_that_is_not_utf8_is_refused() {
    assert_eq!(
        listing_names(vec![b'a', 0xff, b'\n']),
        Err(ListingError::InvalidEncoding)
    );
    assert_eq!(
        create_paths(vec![0xc3, 0x28], &vec![true]).err(),
        Some(ListingError::InvalidEncoding)
    );
}

#[test]
fn create_paths_wants_one_flag_for_each_name() {
    assert_eq!(
        create_paths(b"a\nb\n".to_vec(), &vec![true]).err(),
        Some(ListingError::FlagCount)
    );
    assert_eq!(
        create_paths(b"\n".to_vec(), &vec![true]).err(),
        Some(ListingError::FlagCount)
    );
}

#[test]
fn create_paths_sorts_and_roots_the_listing() {
    let paths = create_paths(
        b"tmp\nsrc/main.rs\nsrc\nsrc-old\n".to_vec(),
        &vec![true, false, true, true],
    )
    .unwrap();
    let joined: Vec<&str> = paths.iter().map(|p| p.joined.as_str()).collect();
    assert_eq!(
        joined,
        vec![".", "./src", "./src-old", "./src/main.rs", "./tmp"]
    );
    let dirs: Vec<bool> = paths.iter().map(|p| p.is_dir).collect();
    assert_eq!(dirs, vec![true, true, true, false, true]);
    assert_eq!(paths[0].components, vec!["."]);
    assert_eq!(paths[1].components, vec![".", "src"]);
    assert_eq!(paths[3].components, vec![".", "src", "main.rs"]);
    assert_eq!(paths[3].match_text, "main.rs");
    for p in &paths {
        assert!(p.matched && p.open && !p.selected);
        assert_eq!(p.parent, None);
        assert!(p.children.is_empty());
    }
}

#[test]
fn create_paths_of_an_empty_listing_is_the_root() {
    let paths = create_paths(Vec::new(), &Vec::new()).unwrap();
    assert_eq!(paths.len(), 1);
    assert_eq!(paths[0], Path::from(".", true));
}

#[test]
fn a_leaf_has_no_descendants() {
    let mut paths = create_test_paths();
    link_paths(&mut paths);
    assert_eq!(n_descendants(&paths, 10), 0);
    assert_eq!(n_descendants(&paths, 4), 2);
    assert_eq!(n_descendants(&paths, 7), 2);
}

#[test]
fn entries_of_the_same_name_keep_the_order_of_the_listing() {
    let paths = create_paths(b"b\na\nb\na\n".to_vec(), &vec![true, true, false, false]).unwrap();
    let entries: Vec<(&str, bool)> = paths
        .iter()
        .map(|p| (p.joined.as_str(), p.is_dir))
        .collect();
    assert_eq!(
        entries,
        vec![
            (".", true),
            ("./a", true),
            ("./a", false),
            ("./b", true),
            ("./b", false)
        ]
    );
}
