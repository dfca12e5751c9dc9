use fuzzy_tree::path::Path;
use fuzzy_tree::tui::{chars_to_str, print_info_line, println_cleared, Tui};

fn ui(lines: usize) -> Tui {
    Tui::new("> ".to_string(), 7, lines, (80, 24), (1, 5))
}

fn typed(text: &str) -> Tui {
    let mut ui = ui(0);
    for c in text.chars() {
        ui.insert_char(c);
    }
    ui
}

fn query(ui: &Tui) -> String {
    ui.current_input()
}

#[test]
fn new_viewport_keeps_its_place_when_there_is_room() {
    let ui = Tui::new("> ".to_string(), 7, 11, (80, 24), (1, 5));
    assert_eq!(ui.start_pos, (1, 5));
    assert_eq!(ui.display_lines, 7);
    assert_eq!(ui.current_lines, 11);
    assert_eq!((ui.offset, ui.line_pos, ui.curs_pos), (0, 0, 0));
    assert!(!ui.chars_changed);
    assert_eq!(ui.out, "");
    assert_eq!(ui.index(), 0);
    // the last place from which seven rows fit on 24 rows
    let ui = Tui::new("> ".to_string(), 7, 11, (80, 24), (1, 17));
    assert_eq!(ui.start_pos, (1, 17));
    assert_eq!(ui.out, "");
}

#[test]
fn new_viewport_scrolls_up_to_make_room() {
    let ui = Tui::new("> ".to_string(), 7, 11, (80, 24), (4, 22));
    assert_eq!(ui.start_pos, (4, 17));
    assert_eq!(ui.out, "\u{1b}[5S");
}

#[test]
fn new_viewport_is_no_higher_than_the_terminal() {
    let ui = Tui::new("> ".to_string(), 20, 0, (80, 5), (1, 3));
    assert_eq!(ui.display_lines, 5);
    assert_eq!(ui.start_pos, (1, 0));
    assert_eq!(ui.out, "\u{1b}[3S");
}

#[test]
fn move_down_walks_then_scrolls_then_stops() {
    let mut ui = ui(8);
    let mut seen = Vec::new();
    for _ in 0..9 {
        ui.move_down();
        seen.push((ui.offset, ui.line_pos));
    }
    // five rows of tree: rows 0..=4
    assert_eq!(
        seen,
        vec![(0, 1), (0, 2), (0, 3), (0, 4), (1, 4), (2, 4), (3, 4), (3, 4), (3, 4)]
    );
    assert_eq!(ui.index(), 7);
}

#[test]
fn move_down_without_lines_does_nothing() {
    let mut ui = ui(0);
    ui.move_down();
    assert_eq!((ui.offset, ui.line_pos), (0, 0));
    let mut ui = self::ui(1);
    ui.move_down();
    assert_eq!((ui.offset, ui.line_pos), (0, 0));
}

#[test]
fn move_up_walks_then_scrolls_then_stops() {
    let mut ui = ui(8);
    for _ in 0..7 {
        ui.move_down();
    }
    assert_eq!((ui.offset, ui.line_pos), (3, 4));
    let mut seen = Vec::new();
    for _ in 0..8 {
        ui.move_up();
        seen.push((ui.offset, ui.line_pos));
    }
    assert_eq!(
        seen,
        vec![(3, 3), (3, 2), (3, 1), (3, 0), (2, 0), (1, 0), (0, 0), (0, 0)]
    );
}

#[test]
fn page_down_jumps_by_the_height_of_the_window() {
    let mut ui = ui(30);
    ui.move_down();
    ui.move_down();
    ui.page_down();
    assert_eq!((ui.offset, ui.line_pos), (7, 2));
    ui.page_down();
    ui.page_down();
    assert_eq!((ui.offset, ui.line_pos), (21, 2));
    ui.page_down();
    assert_eq!((ui.offset, ui.line_pos), (28, 1));
    ui.page_down();
    assert_eq!((ui.offset, ui.line_pos), (29, 0));
    ui.page_down();
    assert_eq!((ui.offset, ui.line_pos), (29, 0));
}

#[test]
fn page_down_snaps_to_the_last_line() {
    let mut ui = ui(7);
    ui.move_down();
    ui.page_down();
    assert_eq!((ui.offset, ui.line_pos), (6, 0));
    let mut ui = self::ui(0);
    ui.page_down();
    assert_eq!((ui.offset, ui.line_pos), (0, 0));
}

#[test]
fn page_up_jumps_back() {
    let mut ui = ui(30);
    ui.move_down();
    ui.page_down();
    ui.page_down();
    assert_eq!((ui.offset, ui.line_pos), (14, 1));
    ui.page_up();
    assert_eq!((ui.offset, ui.line_pos), (7, 1));
    ui.page_up();
    assert_eq!((ui.offset, ui.line_pos), (0, 1));
    ui.page_up();
    assert_eq!((ui.offset, ui.line_pos), (0, 0));
    ui.offset = 3;
    ui.line_pos = 2;
    ui.page_up();
    assert_eq!((ui.offset, ui.line_pos), (0, 2));
}

#[test]
fn typing_and_moving_in_the_query() {
    let mut ui = typed("ac");
    assert!(ui.chars_changed);
    assert_eq!(ui.curs_pos, 2);
    ui.move_left();
    ui.insert_char('b');
    assert_eq!(query(&ui), "abc");
    assert_eq!(ui.curs_pos, 2);
    ui.move_right();
    ui.move_right();
    assert_eq!(ui.curs_pos, 3);
    ui.home();
    assert_eq!(ui.curs_pos, 0);
    ui.move_left();
    assert_eq!(ui.curs_pos, 0);
    ui.end();
    assert_eq!(ui.curs_pos, 3);
    assert_eq!(chars_to_str(&ui.chars), "abc");
}

#[test]
fn backspace_and_delete() {
    let mut ui = typed("abcd");
    ui.chars_changed = false;
    ui.home();
    ui.backspace();
    assert_eq!(query(&ui), "abcd");
    assert!(!ui.chars_changed);
    ui.delete();
    assert_eq!(query(&ui), "bcd");
    assert!(ui.chars_changed);
    assert_eq!(ui.curs_pos, 0);
    ui.end();
    ui.chars_changed = false;
    ui.delete();
    assert_eq!(query(&ui), "bcd");
    assert!(!ui.chars_changed);
    ui.backspace();
    assert_eq!(query(&ui), "bc");
    assert_eq!(ui.curs_pos, 2);
    assert!(ui.chars_changed);
    ui.move_left();
    ui.backspace();
    assert_eq!(query(&ui), "c");
    assert_eq!(ui.curs_pos, 0);
}

#[test]
fn stash_cuts_from_the_cursor_to_the_end() {
    let mut ui = typed("src main");
    ui.chars_changed = false;
    ui.curs_pos = 3;
    ui.stash();
    assert_eq!(query(&ui), "src");
    assert_eq!(chars_to_str(&ui.stash), " main");
    assert_eq!(ui.curs_pos, 3);
    assert!(ui.chars_changed);
}

#[test]
fn pop_puts_the_stash_back_at_the_cursor() {
    let mut ui = typed("src main");
    ui.curs_pos = 3;
    ui.stash();
    ui.chars_changed = false;
    ui.home();
    ui.pop();
    assert_eq!(query(&ui), " mainsrc");
    assert_eq!(ui.curs_pos, 5);
    assert!(ui.chars_changed);
    assert_eq!(chars_to_str(&ui.stash), " main");
}

#[test]
fn stash_then_pop_restores_the_query() {
    let mut ui = typed("one two three");
    ui.curs_pos = 4;
    ui.stash();
    ui.pop();
    assert_eq!(query(&ui), "one two three");
    assert_eq!(ui.curs_pos, 13);
}

#[test]
fn pop_of_an_empty_stash_changes_nothing() {
    let mut ui = typed("abc");
    ui.chars_changed = false;
    ui.pop();
    assert_eq!(query(&ui), "abc");
    assert_eq!(ui.curs_pos, 3);
    assert!(!ui.chars_changed);
}

#[test]
fn word_stash_cuts_the_word_before_the_cursor() {
    let mut ui = typed("x ab");
    ui.word_stash();
    assert_eq!(query(&ui), "x ");
    assert_eq!(chars_to_str(&ui.stash), "ab");
    assert_eq!(ui.curs_pos, 2);
    // the space before the cursor goes with the word before it
    ui.word_stash();
    assert_eq!(query(&ui), "");
    assert_eq!(chars_to_str(&ui.stash), "x ");
    assert_eq!(ui.curs_pos, 0);
}

#[test]
fn word_stash_in_the_middle_of_the_query() {
    let mut ui = typed("one two  three");
    ui.curs_pos = 9;
    ui.chars_changed = false;
    ui.word_stash();
    assert_eq!(query(&ui), "one three");
    assert_eq!(chars_to_str(&ui.stash), "two  ");
    assert_eq!(ui.curs_pos, 4);
    assert!(ui.chars_changed);
}

#[test]
fn word_stash_of_a_single_character() {
    let mut ui = typed("a");
    ui.word_stash();
    assert_eq!(query(&ui), "");
    assert_eq!(chars_to_str(&ui.stash), "a");
    assert_eq!(ui.curs_pos, 0);
}

#[test]
fn word_stash_at_the_start_does_nothing() {
    let mut ui = typed("abc");
    ui.home();
    ui.chars_changed = false;
    ui.stash = vec!['k'];
    ui.word_stash();
    assert_eq!(query(&ui), "abc");
    assert_eq!(chars_to_str(&ui.stash), "k");
    assert!(!ui.chars_changed);
}

#[test]
fn word_stash_stops_at_white_space() {
    let mut ui = typed(" ab");
    ui.word_stash();
    assert_eq!(query(&ui), " ");
    assert_eq!(chars_to_str(&ui.stash), "ab");
    assert_eq!(ui.curs_pos, 1);
}

#[test]
fn move_left_word_goes_to_the_start_of_the_word() {
    let mut ui = typed("one two  three");
    ui.move_left_word();
    assert_eq!(ui.curs_pos, 9);
    ui.move_left_word();
    assert_eq!(ui.curs_pos, 4);
    ui.move_left_word();
    assert_eq!(ui.curs_pos, 0);
    ui.move_left_word();
    assert_eq!(ui.curs_pos, 0);
    assert_eq!(query(&ui), "one two  three");
}

#[test]
fn lines_are_cleared_before_they_are_written() {
    let mut out = String::from("x");
    println_cleared(&mut out, "abc");
    assert_eq!(out, "x\u{1b}[2Kabc\r\n");
    print_info_line(&mut out, "(info)".to_string());
    assert_eq!(
        out,
        "x\u{1b}[2Kabc\r\n\u{1b}[2K\u{1b}[38;5;10m(info)\u{1b}[39m\r\n"
    );
}

#[test]
fn flush_hands_over_what_was_pending() {
    let mut ui = Tui::new("> ".to_string(), 7, 11, (80, 24), (4, 22));
    assert_eq!(ui.flush(), "\u{1b}[5S");
    assert_eq!(ui.out, "");
    assert_eq!(ui.flush(), "");
}

#[test]
fn debugging_line_tells_the_place() {
    let mut ui = ui(30);
    ui.page_down();
    ui.move_down();
    assert_eq!(ui.info_line(), "offset: 7, line_pos: 1, index: 8");
}

fn lines(n: usize) -> Vec<String> {
    (0..n).map(|i| format!("line{}", i)).collect()
}

const CLEAR: &str = "\u{1b}[2K";
const MARK: &str = "\u{1b}[48;2;50;50;50m\u{1b}[38;5;1m>\u{1b}[39m";
const BG: &str = "\u{1b}[49m";

#[test]
fn frame_shows_query_info_and_window() {
    let mut ui = Tui::new("> ".to_string(), 5, 0, (80, 24), (1, 5));
    ui.insert_char('a');
    ui.insert_char('b');
    ui.move_left();
    let written = ui.render("(info)".to_string(), lines(4));
    let expected = format!(
        "\u{1b}[5;1H{c}> ab\r\n{c}\u{1b}[38;5;10m(info)\u{1b}[39m\r\n\u{1b}[J\
         {c}{m}line0{b}\r\n{c} line1{b}\r\n{c} line2{b}\u{1b}[5;4H",
        c = CLEAR,
        m = MARK,
        b = BG
    );
    assert_eq!(written, expected);
    assert!(!ui.chars_changed);
    assert_eq!(ui.current_lines, 4);
    assert_eq!(ui.out, "");
}

#[test]
fn frame_window_follows_offset_and_row() {
    let mut ui = Tui::new("> ".to_string(), 4, 5, (80, 24), (2, 3));
    ui.move_down();
    ui.move_down();
    ui.move_down();
    assert_eq!((ui.offset, ui.line_pos), (2, 1));
    let written = ui.render(String::new(), lines(5));
    let expected = format!(
        "\u{1b}[3;2H{c}> \r\n{c}\u{1b}[38;5;10m\u{1b}[39m\r\n\u{1b}[J\
         {c} line2{b}\r\n{c}{m}line3{b}\u{1b}[3;3H",
        c = CLEAR,
        m = MARK,
        b = BG
    );
    assert_eq!(written, expected);
}

#[test]
fn frame_of_fewer_lines_than_rows_ends_in_a_new_line() {
    let mut ui = Tui::new("> ".to_string(), 6, 0, (80, 24), (1, 1));
    let written = ui.render("i".to_string(), lines(1));
    let expected = format!(
        "\u{1b}[1;1H{c}> \r\n{c}\u{1b}[38;5;10mi\u{1b}[39m\r\n\u{1b}[J{c}{m}line0{b}\r\n\u{1b}[1;3H",
        c = CLEAR,
        m = MARK,
        b = BG
    );
    assert_eq!(written, expected);
}

#[test]
fn frame_without_lines_has_an_empty_window() {
    let mut ui = Tui::new("> ".to_string(), 6, 3, (80, 24), (1, 1));
    let written = ui.render("i".to_string(), Vec::new());
    let expected = format!(
        "\u{1b}[1;1H{c}> \r\n{c}\u{1b}[38;5;10mi\u{1b}[39m\r\n\u{1b}[J\u{1b}[1;3H",
        c = CLEAR
    );
    assert_eq!(written, expected);
    assert_eq!(ui.current_lines, 0);
}

#[test]
fn render_clamps_when_the_query_has_changed() {
    // 10 lines, offset 5, row 3, narrowed to 4 lines
    let mut ui = Tui::new("> ".to_string(), 7, 10, (80, 24), (1, 1));
    ui.offset = 5;
    ui.line_pos = 3;
    ui.chars_changed = true;
    ui.render(String::new(), lines(4));
    assert_eq!((ui.offset, ui.line_pos), (0, 3));
    assert!(ui.index() < 4);
    // offset beyond the number of lines that went
    let mut ui = Tui::new("> ".to_string(), 7, 10, (80, 24), (1, 1));
    ui.offset = 7;
    ui.line_pos = 2;
    ui.chars_changed = true;
    ui.render(String::new(), lines(8));
    assert_eq!((ui.offset, ui.line_pos), (5, 2));
    assert_eq!(ui.index(), 7);
    // no line left
    let mut ui = Tui::new("> ".to_string(), 7, 10, (80, 24), (1, 1));
    ui.offset = 5;
    ui.line_pos = 3;
    ui.chars_changed = true;
    ui.render(String::new(), Vec::new());
    assert_eq!((ui.offset, ui.line_pos), (0, 0));
    assert_eq!(ui.index(), 0);
}

#[test]
fn render_leaves_the_window_when_the_current_line_is_still_there() {
    let mut ui = Tui::new("> ".to_string(), 7, 10, (80, 24), (1, 1));
    ui.offset = 2;
    ui.line_pos = 1;
    ui.chars_changed = true;
    ui.render(String::new(), lines(4));
    assert_eq!((ui.offset, ui.line_pos), (2, 1));
    assert_eq!(ui.current_lines, 4);
}

#[test]
fn render_does_not_clamp_when_the_query_has_not_changed() {
    let mut ui = Tui::new("> ".to_string(), 7, 10, (80, 24), (1, 1));
    ui.offset = 5;
    ui.line_pos = 3;
    let written = ui.render(String::new(), lines(4));
    assert_eq!((ui.offset, ui.line_pos), (5, 3));
    assert!(written.ends_with("\u{1b}[J\u{1b}[1;3H"));
}

#[test]
fn cursor_column_stops_at_the_last_column() {
    let mut ui = Tui::new("> ".to_string(), 5, 0, (80, 24), (1, 2));
    ui.chars = vec!['a'; 70000];
    ui.curs_pos = 65532;
    assert!(ui
        .render(String::new(), Vec::new())
        .ends_with("\u{1b}[2;65535H"));
    ui.curs_pos = 65533;
    assert!(ui
        .render(String::new(), Vec::new())
        .ends_with("\u{1b}[2;65535H"));
    ui.curs_pos = 70000;
    assert!(ui
        .render(String::new(), Vec::new())
        .ends_with("\u{1b}[2;65535H"));
}

#[test]
fn print_paths_writes_the_selection() {
    let mut paths = vec![
        Path::from(".", true),
        Path::from("src", true),
        Path::from("src/main.rs", false),
        Path::from("tmp", true),
    ];
    paths[1].selected = true;
    paths[3].selected = true;
    let mut ui = Tui::new("> ".to_string(), 5, 0, (80, 24), (1, 5));
    assert_eq!(ui.print_paths(&paths), "src tmp");
    assert_eq!(ui.flush(), "\u{1b}[5;1H\u{1b}[J");
    paths[3].selected = false;
    assert_eq!(ui.print_paths(&paths), "src");
    paths[1].selected = false;
    assert_eq!(ui.print_paths(&paths), "");
    assert_eq!(ui.flush(), "\u{1b}[5;1H\u{1b}[J\u{1b}[5;1H\u{1b}[J");
}
