use fuzzy_tree::path::Path;
use fuzzy_tree::session::{
    apply_key, handle_key, prompt, refresh, start, EXIT_INTERRUPT, Key, Outcome,
};
use fuzzy_tree::tree::Tree;
use fuzzy_tree::tui::Tui;

fn test_tree() -> Tree {
    let names = [
        ".",
        "./A",
        "./B",
        "./src",
        "./src/bayes",
        "./src/bayes/blend.c",
        "./src/bayes/rand.c",
        "./src/cakes",
        "./src/cakes/a.c",
        "./src/cakes/b.c",
        "./x.txt",
    ];
    let mut paths = Vec::new();
    for name in names {
        let is_dir = name.matches('.').count() == 1;
        paths.push(Path::from(name, is_dir));
    }
    Tree::from_paths(paths)
}

fn begin(n_collapse: usize) -> (Tree, Tui) {
    let mut tree = test_tree();
    let (ui, _) = start(&mut tree, n_collapse, 20, (80, 24), (1, 1));
    (tree, ui)
}

#[test]
fn prompt_is_blue() {
    assert_eq!(prompt(), "\u{1b}[38;5;4m> \u{1b}[39m");
    assert_eq!(EXIT_INTERRUPT, 130);
}

#[test]
fn start_draws_the_first_frame() {
    let mut tree = test_tree();
    let (ui, written) = start(&mut tree, 100, 20, (80, 24), (1, 1));
    assert_eq!(ui.current_lines, 11);
    assert_eq!(ui.prompt, prompt());
    assert!(written.starts_with("\u{1b}[1;1H\u{1b}[2K\u{1b}[38;5;4m> \u{1b}[39m\r\n"));
    assert!(written.contains("(selected: 0, shown: 11, total: 11)"));
    assert!(written.contains("x.txt"));
    assert!(written.ends_with("\u{1b}[1;3H"));
}

#[test]
fn start_collapses_large_directories() {
    let mut tree = test_tree();
    let (ui, _) = start(&mut tree, 3, 20, (80, 24), (1, 1));
    assert!(!tree.paths[0].open);
    assert!(tree.paths[3].open);
    assert_eq!(ui.current_lines, 1);
    let (tree, ui) = begin(2);
    assert!(!tree.paths[0].open);
    assert_eq!(ui.current_lines, 1);
    let (tree, ui) = begin(4);
    assert!(tree.paths.iter().all(|p| p.open));
    assert_eq!(ui.current_lines, 11);
}

#[test]
fn a_threshold_of_zero_closes_every_directory_that_has_a_child() {
    let (mut tree, ui) = begin(0);
    let open: Vec<bool> = tree.paths.iter().map(|p| p.open).collect();
    // ., src, bayes and cakes have children; A and B are empty directories
    assert_eq!(
        open,
        vec![false, true, true, false, false, true, true, false, true, true, true]
    );
    assert_eq!(ui.current_lines, 1);
    tree.flip_open(0);
    assert_eq!(tree.as_lines().len(), 5);
}

#[test]
fn outcomes_of_keys() {
    let all = [
        (Key::Esc, Outcome::Abort),
        (Key::Char('\n'), Outcome::Accept),
        (Key::Ctrl('c'), Outcome::Interrupt),
        (Key::Char('a'), Outcome::Continue),
        (Key::Char('\t'), Outcome::Continue),
        (Key::Char('`'), Outcome::Continue),
        (Key::Ctrl('u'), Outcome::Continue),
        (Key::Ctrl('w'), Outcome::Continue),
        (Key::Ctrl('y'), Outcome::Continue),
        (Key::Ctrl('x'), Outcome::Continue),
        (Key::Left, Outcome::Continue),
        (Key::Right, Outcome::Continue),
        (Key::Up, Outcome::Continue),
        (Key::Down, Outcome::Continue),
        (Key::PageUp, Outcome::Continue),
        (Key::PageDown, Outcome::Continue),
        (Key::Backspace, Outcome::Continue),
        (Key::Delete, Outcome::Continue),
        (Key::Home, Outcome::Continue),
        (Key::End, Outcome::Continue),
        (Key::Other, Outcome::Continue),
    ];
    for (key, outcome) in all {
        let (mut tree, mut ui) = begin(100);
        assert_eq!(apply_key(&mut tree, &mut ui, key).0, outcome, "{:?}", key);
    }
}

#[test]
fn typing_filters_the_tree() {
    let (mut tree, mut ui) = begin(100);
    for c in "src".chars() {
        let answer = handle_key(&mut tree, &mut ui, Key::Char(c), false);
        assert_eq!(answer.outcome, Outcome::Continue);
        assert!(answer.written.contains("total: 11"));
        assert_eq!(answer.selection, "");
    }
    assert_eq!(tree.n_matches, 8);
    assert_eq!(ui.current_lines, 8);
    assert_eq!(ui.current_input(), "src");
    assert!(!ui.chars_changed);
    let written = handle_key(&mut tree, &mut ui, Key::Backspace, true).written;
    assert!(written.contains("(selected: 0, shown: 8, total: 11)offset: 0, line_pos: 0, index: 0"));
    assert_eq!(ui.current_input(), "sr");
}

#[test]
fn narrowing_the_filter_keeps_the_current_line_among_the_lines() {
    let (mut tree, mut ui) = begin(100);
    for _ in 0..10 {
        handle_key(&mut tree, &mut ui, Key::Down, false);
    }
    assert_eq!(ui.index(), 10);
    handle_key(&mut tree, &mut ui, Key::Char('b'), false);
    assert_eq!(ui.current_lines, 7);
    assert!(ui.index() < 7);
    for c in "lend".chars() {
        handle_key(&mut tree, &mut ui, Key::Char(c), false);
    }
    assert_eq!(ui.current_lines, 4);
    assert!(ui.index() < 4);
    handle_key(&mut tree, &mut ui, Key::Char('X'), false);
    assert_eq!(ui.current_lines, 0);
    assert_eq!(ui.index(), 0);
    assert_eq!(tree.as_lines(), Vec::<String>::new());
}

#[test]
fn tab_selects_and_moves_down() {
    let (mut tree, mut ui) = begin(100);
    handle_key(&mut tree, &mut ui, Key::Down, false);
    let written = handle_key(&mut tree, &mut ui, Key::Char('\t'), false).written;
    assert!(tree.paths[1].selected);
    assert_eq!(tree.n_selected, 1);
    assert_eq!(ui.index(), 2);
    assert!(written.contains("(selected: 1, shown: 11, total: 11)"));
    handle_key(&mut tree, &mut ui, Key::Up, false);
    handle_key(&mut tree, &mut ui, Key::Char('\t'), false);
    assert!(!tree.paths[1].selected);
    assert_eq!(tree.n_selected, 0);
}

#[test]
fn backtick_closes_and_opens_the_current_directory() {
    let (mut tree, mut ui) = begin(100);
    for _ in 0..3 {
        handle_key(&mut tree, &mut ui, Key::Down, false);
    }
    handle_key(&mut tree, &mut ui, Key::Char('`'), false);
    assert!(!tree.paths[3].open);
    assert_eq!(ui.current_lines, 5);
    assert_eq!(ui.index(), 3);
    handle_key(&mut tree, &mut ui, Key::Char('`'), false);
    assert!(tree.paths[3].open);
    assert_eq!(ui.current_lines, 11);
}

#[test]
fn accept_writes_the_current_line_if_nothing_is_selected() {
    let (mut tree, mut ui) = begin(100);
    for _ in 0..5 {
        handle_key(&mut tree, &mut ui, Key::Down, false);
    }
    let answer = handle_key(&mut tree, &mut ui, Key::Char('\n'), false);
    assert_eq!(answer.outcome, Outcome::Accept);
    assert_eq!(answer.written, "\u{1b}[1;1H\u{1b}[J");
    assert_eq!(answer.selection, "./src/bayes/blend.c");
    assert_eq!(tree.n_selected, 1);
    assert!(tree.paths[5].selected);
}

#[test]
fn accept_writes_the_selection() {
    let (mut tree, mut ui) = begin(100);
    handle_key(&mut tree, &mut ui, Key::Down, false);
    handle_key(&mut tree, &mut ui, Key::Char('\t'), false);
    handle_key(&mut tree, &mut ui, Key::Char('\t'), false);
    for _ in 0..5 {
        handle_key(&mut tree, &mut ui, Key::Down, false);
    }
    let answer = handle_key(&mut tree, &mut ui, Key::Char('\n'), false);
    assert_eq!(answer.outcome, Outcome::Accept);
    assert_eq!(answer.written, "\u{1b}[1;1H\u{1b}[J");
    assert_eq!(answer.selection, "./A ./B");
    assert_eq!(tree.n_selected, 2);
}

#[test]
fn abort_and_interrupt_write_nothing() {
    let (mut tree, mut ui) = begin(100);
    let answer = handle_key(&mut tree, &mut ui, Key::Esc, false);
    assert_eq!(answer.outcome, Outcome::Abort);
    assert_eq!((answer.written.as_str(), answer.selection.as_str()), ("", ""));
    let answer = handle_key(&mut tree, &mut ui, Key::Ctrl('c'), false);
    assert_eq!(answer.outcome, Outcome::Interrupt);
    assert_eq!((answer.written.as_str(), answer.selection.as_str()), ("", ""));
    assert_eq!(tree.n_selected, 0);
}

#[test]
fn control_keys_cut_and_paste() {
    let (mut tree, mut ui) = begin(100);
    for c in "src b".chars() {
        handle_key(&mut tree, &mut ui, Key::Char(c), false);
    }
    assert_eq!(tree.n_matches, 7);
    handle_key(&mut tree, &mut ui, Key::Ctrl('w'), false);
    assert_eq!(ui.current_input(), "src ");
    assert_eq!(tree.n_matches, 8);
    handle_key(&mut tree, &mut ui, Key::Ctrl('y'), false);
    assert_eq!(ui.current_input(), "src b");
    assert_eq!(tree.n_matches, 7);
    handle_key(&mut tree, &mut ui, Key::Home, false);
    handle_key(&mut tree, &mut ui, Key::Right, false);
    handle_key(&mut tree, &mut ui, Key::Ctrl('u'), false);
    assert_eq!(ui.current_input(), "s");
    handle_key(&mut tree, &mut ui, Key::End, false);
    handle_key(&mut tree, &mut ui, Key::Left, false);
    handle_key(&mut tree, &mut ui, Key::Delete, false);
    assert_eq!(ui.current_input(), "");
    assert_eq!(tree.n_matches, 11);
    handle_key(&mut tree, &mut ui, Key::Ctrl('x'), false);
    handle_key(&mut tree, &mut ui, Key::Other, false);
    assert_eq!(ui.current_input(), "");
}

#[test]
fn paging_through_the_session() {
    let mut tree = test_tree();
    let (mut ui, _) = start(&mut tree, 100, 5, (80, 24), (1, 1));
    handle_key(&mut tree, &mut ui, Key::PageDown, false);
    assert_eq!(ui.index(), 5);
    handle_key(&mut tree, &mut ui, Key::PageDown, false);
    assert_eq!(ui.index(), 10);
    handle_key(&mut tree, &mut ui, Key::PageUp, false);
    assert_eq!(ui.index(), 5);
}

#[test]
fn refresh_filters_only_when_the_query_has_changed() {
    let (mut tree, mut ui) = begin(100);
    ui.chars = vec!['s', 'r', 'c'];
    ui.curs_pos = 3;
    refresh(&mut tree, &mut ui, false);
    assert_eq!(tree.n_matches, 11);
    ui.chars_changed = true;
    refresh(&mut tree, &mut ui, false);
    assert_eq!(tree.n_matches, 8);
    assert!(!ui.chars_changed);
}

#[test]
fn accept_without_lines_has_no_output() {
    let (mut tree, mut ui) = begin(100);
    for c in "XX".chars() {
        handle_key(&mut tree, &mut ui, Key::Char(c), false);
    }
    let answer = handle_key(&mut tree, &mut ui, Key::Char('\n'), false);
    assert_eq!(answer.outcome, Outcome::Accept);
    assert_eq!(answer.selection, "");
}

#[test]
fn a_session_on_a_listing_writes_rooted_path_names() {
    let listing = b"src/main.rs\nsrc\nREADME.md\n".to_vec();
    let mut tree = Tree::from_stdout(listing, &vec![false, true, false]).unwrap();
    let (mut ui, _) = start(&mut tree, 10, 20, (80, 24), (1, 1));
    handle_key(&mut tree, &mut ui, Key::Down, false);
    handle_key(&mut tree, &mut ui, Key::Down, false);
    handle_key(&mut tree, &mut ui, Key::Down, false);
    let answer = handle_key(&mut tree, &mut ui, Key::Char('\n'), false);
    assert_eq!(answer.selection, "./src/main.rs");
}
