//! The viewport: the query line with its cursor and its cut buffer, the
//! window onto the displayed lines, and the frames that show both.
//!
//! Nothing here writes to the terminal. What is to be written collects in
//! `Tui::out`; `flush` and `render` hand it over.

use crate::path::{Path, PathView};
use crate::term::{
    background_sequence, bg_reset, bg_rgb, clear_after, clear_line, fg_light_green, fg_red,
    fg_reset, goto, goto_sequence, scroll_sequence, scroll_up, BG_RESET, CLEAR_AFTER, CLEAR_LINE,
    FG_LIGHT_GREEN, FG_RED, FG_RESET,
};
use crate::text::{
    append_decimal, char_is_whitespace, decimal, is_whitespace, join, push_char, push_chars,
    string_of,
};
use vstd::prelude::*;

verus! {

/// The end of a line on a terminal in raw mode.
pub const NEWLINE: &'static str = "\r\n";

/// The mark in front of a displayed line that is not the current one.
pub const PLAIN_MARK: &'static str = " ";

/// The mark in front of the current line, between the colours.
pub const CURRENT_MARK: &'static str = ">";

/// The column of the first character of the query: the prompt takes two
/// columns, and columns are counted from one.
pub const QUERY_COLUMN: u16 = 3;

/// The state of the viewport.
pub struct Tui {
    /// Column and row of the top left corner of the display.
    pub start_pos: (u16, u16),
    /// The text in front of the query.
    pub prompt: String,
    /// The height of the window: the query line, the information line and
    /// the lines of the tree.
    pub display_lines: usize,
    /// The index of the first line of the tree that the window shows.
    pub offset: usize,
    /// The query.
    pub chars: Vec<char>,
    /// The text that was cut from the query last.
    pub stash: Vec<char>,
    /// Whether the query has changed since the last frame.
    pub chars_changed: bool,
    /// The offset of the cursor into the query.
    pub curs_pos: usize,
    /// The row of the current line within the window.
    pub line_pos: usize,
    /// The number of lines of the tree at the last frame.
    pub current_lines: usize,
    /// What is to be written to the terminal next.
    pub out: String,
}

/// The mathematical value of the viewport.
pub struct TuiView {
    pub start_pos: (u16, u16),
    pub prompt: Seq<char>,
    pub display_lines: usize,
    pub offset: usize,
    pub chars: Seq<char>,
    pub stash: Seq<char>,
    pub chars_changed: bool,
    pub curs_pos: usize,
    pub line_pos: usize,
    pub current_lines: usize,
    pub out: Seq<char>,
}

impl View for Tui {
    type V = TuiView;

    open spec fn view(&self) -> TuiView {
        TuiView {
            start_pos: self.start_pos,
            prompt: self.prompt@,
            display_lines: self.display_lines,
            offset: self.offset,
            chars: self.chars@,
            stash: self.stash@,
            chars_changed: self.chars_changed,
            curs_pos: self.curs_pos,
            line_pos: self.line_pos,
            current_lines: self.current_lines,
            out: self.out@,
        }
    }
}

impl TuiView {
    /// The window has room for the query line, the information line and
    /// at least one line of the tree; the current line lies in the window
    /// and the cursor in the query; the corner of the display is a place
    /// on the terminal.
    pub open spec fn wf(self) -> bool {
        &&& self.display_lines >= 3
        &&& self.line_pos <= self.display_lines - 3
        &&& self.curs_pos <= self.chars.len()
        &&& self.offset + self.line_pos <= usize::MAX
        &&& self.start_pos.0 > 0
    }

    /// The index of the current line among the lines of the tree.
    pub open spec fn index(self) -> int {
        self.line_pos + self.offset
    }

    /// The current line is one of the lines of the tree, or the first of
    /// none.
    pub open spec fn in_view(self) -> bool {
        self.index() < self.current_lines || self.index() == 0
    }

    /// The number of lines of the tree that the window has room for.
    pub open spec fn rows(self) -> int {
        self.display_lines - 2
    }

    /// After `move_up`: the current line is one line further up, within
    /// the window if it is not on its first row, with the window if the
    /// window can move. On the first line nothing changes.
    pub open spec fn moved_up(self) -> TuiView {
        if self.index() == 0 {
            self
        } else if self.line_pos == 0 {
            TuiView { offset: (self.offset - 1) as usize, ..self }
        } else {
            TuiView { line_pos: (self.line_pos - 1) as usize, ..self }
        }
    }

    /// After `move_down`: the current line is one line further down,
    /// within the window if it is not on its last row, with the window if
    /// it is. On the last line, and without lines, nothing changes.
    pub open spec fn moved_down(self) -> TuiView {
        if self.index() + 1 >= self.current_lines {
            self
        } else if self.line_pos == self.display_lines - 3 {
            TuiView { offset: (self.offset + 1) as usize, ..self }
        } else {
            TuiView { line_pos: (self.line_pos + 1) as usize, ..self }
        }
    }

    /// After `page_up`: the window is its height further up. If it cannot
    /// move that far it is at the first line, and if it was there the
    /// current line is on its first row.
    pub open spec fn paged_up(self) -> TuiView {
        if self.offset >= self.display_lines {
            TuiView { offset: (self.offset - self.display_lines) as usize, ..self }
        } else if self.offset == 0 {
            TuiView { line_pos: 0, ..self }
        } else {
            TuiView { offset: 0, ..self }
        }
    }

    /// After `page_down`: the window is its height further down. If that
    /// would take it past the last line, its first row shows the last line
    /// and is current; if it takes the current line past the last line,
    /// the current line is the last line. Without lines nothing changes.
    pub open spec fn paged_down(self) -> TuiView {
        if self.current_lines == 0 {
            self
        } else if self.current_lines <= self.offset + self.display_lines {
            TuiView { offset: (self.current_lines - 1) as usize, line_pos: 0, ..self }
        } else {
            let offset = self.offset + self.display_lines;
            let room = self.current_lines - 1 - offset;
            TuiView {
                offset: offset as usize,
                line_pos: if self.line_pos <= room {
                    self.line_pos
                } else {
                    room as usize
                },
                ..self
            }
        }
    }

    /// After `move_left`: the cursor is one character further left, if it
    /// was not at the start of the query.
    pub open spec fn moved_left(self) -> TuiView {
        TuiView {
            curs_pos: if self.curs_pos > 0 {
                (self.curs_pos - 1) as usize
            } else {
                0
            },
            ..self
        }
    }

    /// After `move_right`: the cursor is one character further right, if
    /// it was not at the end of the query.
    pub open spec fn moved_right(self) -> TuiView {
        TuiView {
            curs_pos: if self.curs_pos < self.chars.len() {
                (self.curs_pos + 1) as usize
            } else {
                self.curs_pos
            },
            ..self
        }
    }

    /// After `move_left_word`: the cursor is at the start of the word
    /// before it.
    pub open spec fn moved_left_word(self) -> TuiView {
        TuiView { curs_pos: word_start(self.chars, self.curs_pos as int) as usize, ..self }
    }

    /// After `home`: the cursor is at the start of the query.
    pub open spec fn at_home(self) -> TuiView {
        TuiView { curs_pos: 0, ..self }
    }

    /// After `end`: the cursor is at the end of the query.
    pub open spec fn at_end(self) -> TuiView {
        TuiView { curs_pos: self.chars.len() as usize, ..self }
    }

    /// After `word_stash`: the word before the cursor, with the white
    /// space between it and the cursor, has gone from the query to the cut
    /// buffer, and the query has changed. With the cursor at the start of
    /// the query nothing changes.
    pub open spec fn word_stashed(self) -> TuiView {
        if self.curs_pos == 0 {
            self
        } else {
            let start = word_start(self.chars, self.curs_pos as int);
            TuiView {
                chars: self.chars.take(start) + self.chars.skip(self.curs_pos as int),
                stash: self.chars.subrange(start, self.curs_pos as int),
                curs_pos: start as usize,
                chars_changed: true,
                ..self
            }
        }
    }

    /// After `stash`: the text from the cursor to the end of the query has
    /// gone to the cut buffer, and the query counts as changed.
    pub open spec fn stashed(self) -> TuiView {
        TuiView {
            chars: self.chars.take(self.curs_pos as int),
            stash: self.chars.skip(self.curs_pos as int),
            chars_changed: true,
            ..self
        }
    }

    /// After `pop`: the text of the cut buffer stands in the query where
    /// the cursor was, and the cursor behind it. The query has changed if
    /// the cut buffer held anything.
    pub open spec fn popped(self) -> TuiView {
        TuiView {
            chars: self.chars.take(self.curs_pos as int) + self.stash + self.chars.skip(
                self.curs_pos as int,
            ),
            curs_pos: (self.curs_pos + self.stash.len()) as usize,
            chars_changed: self.chars_changed || self.stash.len() > 0,
            ..self
        }
    }

    /// After `insert_char`: `c` stands in the query where the cursor was,
    /// and the cursor behind it. The query has changed.
    pub open spec fn inserted(self, c: char) -> TuiView {
        TuiView {
            chars: self.chars.insert(self.curs_pos as int, c),
            curs_pos: (self.curs_pos + 1) as usize,
            chars_changed: true,
            ..self
        }
    }

    /// After `backspace`: the character before the cursor has gone, if
    /// there was one, and the query has changed.
    pub open spec fn backspaced(self) -> TuiView {
        if self.curs_pos > 0 {
            TuiView {
                chars: self.chars.remove(self.curs_pos - 1),
                curs_pos: (self.curs_pos - 1) as usize,
                chars_changed: true,
                ..self
            }
        } else {
            self
        }
    }

    /// After `delete`: the character at the cursor has gone, if there was
    /// one, and the query has changed.
    pub open spec fn deleted(self) -> TuiView {
        if self.curs_pos < self.chars.len() {
            TuiView {
                chars: self.chars.remove(self.curs_pos as int),
                chars_changed: true,
                ..self
            }
        } else {
            self
        }
    }

    /// The query can take in the cut buffer without its length passing
    /// what the machine can count.
    pub open spec fn can_grow(self) -> bool {
        self.chars.len() + self.stash.len() < usize::MAX
    }
}

/// The column of the terminal on which the cursor stands when it is at
/// offset `curs_pos` of the query: the last column if there is none so far
/// to the right.
pub open spec fn cursor_column(curs_pos: usize) -> u16 {
    if curs_pos + QUERY_COLUMN <= u16::MAX {
        (curs_pos + QUERY_COLUMN) as u16
    } else {
        u16::MAX
    }
}

/// A line of text on a cleared line of the terminal.
pub open spec fn cleared_line(text: Seq<char>) -> Seq<char> {
    CLEAR_LINE@ + text + NEWLINE@
}

/// The line of the query: the prompt and the query.
pub open spec fn input_line(prompt: Seq<char>, query: Seq<char>) -> Seq<char> {
    cleared_line(prompt + query)
}

/// The information line: `text` in light green.
pub open spec fn info_line_text(text: Seq<char>) -> Seq<char> {
    cleared_line(FG_LIGHT_GREEN@ + text + FG_RESET@)
}

/// The mark in front of the current line: a red `>` on a dark background,
/// which stays until the end of the line.
pub open spec fn highlight_mark() -> Seq<char> {
    background_sequence(50, 50, 50) + FG_RED@ + CURRENT_MARK@ + FG_RESET@
}

/// Row `i` of the window: `line` behind its mark, on a cleared line. All
/// rows but the last that the window has room for end in a new line.
pub open spec fn body_row(line: Seq<char>, i: int, pos: int, rows: int) -> Seq<char> {
    CLEAR_LINE@ + (if i == pos {
        highlight_mark()
    } else {
        PLAIN_MARK@
    }) + line + BG_RESET@ + (if i == rows - 1 {
        Seq::empty()
    } else {
        NEWLINE@
    })
}

/// The first `upto` rows of the window onto `lines`.
pub open spec fn body_rows(lines: Seq<Seq<char>>, pos: int, rows: int, upto: int) -> Seq<char>
    decreases upto,
{
    if upto <= 0 {
        Seq::empty()
    } else {
        body_rows(lines, pos, rows, upto - 1) + body_row(lines[upto - 1], upto - 1, pos, rows)
    }
}

/// The number of lines that a window of `rows` rows shows of `count`
/// lines when its first row shows line `offset`.
pub open spec fn visible(count: int, offset: int, rows: int) -> int {
    if offset >= count {
        0
    } else if count - offset < rows {
        count - offset
    } else {
        rows
    }
}

/// The part of a frame that shows the tree: the window onto `lines` that
/// starts at line `offset`, with row `pos` marked as the current one.
pub open spec fn body(lines: Seq<Seq<char>>, offset: int, pos: int, rows: int) -> Seq<char> {
    CLEAR_AFTER@ + body_rows(
        lines.skip(offset),
        pos,
        rows,
        visible(lines.len() as int, offset, rows),
    )
}

/// A frame: the query line, the information line and the window onto the
/// tree, drawn from the corner of the display, with the cursor put back
/// into the query at the end.
pub open spec fn frame(ui: TuiView, info: Seq<char>, lines: Seq<Seq<char>>) -> Seq<char> {
    goto_sequence(ui.start_pos.0, ui.start_pos.1) + input_line(ui.prompt, ui.chars)
        + info_line_text(info) + body(lines, ui.offset as int, ui.line_pos as int, ui.rows())
        + goto_sequence(cursor_column(ui.curs_pos), ui.start_pos.1)
}

/// The viewport after `count` lines have been shown in place of those it
/// knew: if the query has changed and the current line is no longer among
/// the lines, the window moves up by as many lines as there are fewer, as
/// far as it can, and the current line moves up to the last line.
pub open spec fn clamped(ui: TuiView, count: usize) -> TuiView {
    if ui.chars_changed && ui.index() >= count {
        let offset = if count < ui.current_lines {
            if ui.offset <= ui.current_lines - count {
                0
            } else {
                ui.offset - (ui.current_lines - count)
            }
        } else {
            ui.offset as int
        };
        let last = if count > 1 {
            count - 1
        } else {
            0
        };
        TuiView {
            offset: offset as usize,
            line_pos: if ui.line_pos <= last {
                ui.line_pos
            } else {
                last as usize
            },
            current_lines: count,
            ..ui
        }
    } else {
        TuiView { current_lines: count, ..ui }
    }
}

/// The viewport that `Tui::new` makes for a terminal of `size` columns and
/// rows on which the cursor stands at column and row `start_pos`.
///
/// The window is `display_lines` high, or as high as the terminal if that
/// is less. If there are fewer rows than that from the cursor to the
/// bottom of the terminal, the display has to be scrolled up to make room:
/// the sequence that does so waits to be written, and the corner of the
/// display is as many rows further up.
pub open spec fn created(
    prompt: Seq<char>,
    display_lines: usize,
    current_lines: usize,
    size: (u16, u16),
    start_pos: (u16, u16),
) -> TuiView {
    let height = if display_lines <= size.1 {
        display_lines
    } else {
        size.1 as usize
    };
    let min_line = size.1 - height;
    TuiView {
        start_pos: (
            start_pos.0,
            if min_line < start_pos.1 {
                min_line as u16
            } else {
                start_pos.1
            },
        ),
        prompt,
        display_lines: height,
        offset: 0,
        chars: Seq::empty(),
        stash: Seq::empty(),
        chars_changed: false,
        curs_pos: 0,
        line_pos: 0,
        current_lines,
        out: if min_line < start_pos.1 {
            scroll_sequence((start_pos.1 - min_line) as u16)
        } else {
            Seq::empty()
        },
    }
}

/// The viewport after a frame for `count` lines has been handed over:
/// the window is put right, nothing is left to be written, and the query
/// counts as unchanged.
pub open spec fn rendered(ui: TuiView, count: usize) -> TuiView {
    TuiView { chars_changed: false, out: Seq::empty(), ..clamped(ui, count) }
}

/// The text of the debugging part of the information line.
pub open spec fn debug_text(ui: TuiView) -> Seq<char> {
    "offset: "@ + decimal(ui.offset as nat) + ", line_pos: "@ + decimal(ui.line_pos as nat)
        + ", index: "@ + decimal(ui.index() as nat)
}

/// The path names of the first `upto` nodes that are selected, in the
/// order of the nodes.
pub open spec fn selected_paths(nodes: Seq<PathView>, upto: int) -> Seq<Seq<char>>
    decreases upto,
{
    if upto <= 0 {
        Seq::empty()
    } else if nodes[upto - 1].selected {
        selected_paths(nodes, upto - 1).push(nodes[upto - 1].joined)
    } else {
        selected_paths(nodes, upto - 1)
    }
}

/// The path names of the nodes that are selected, with one space between
/// neighbours and nothing behind the last.
pub open spec fn selected_names(nodes: Seq<PathView>) -> Seq<char> {
    join(selected_paths(nodes, nodes.len() as int), ' ')
}

/// What is written to the terminal when the selection is accepted: the
/// display is cleared from its corner on.
pub open spec fn clearing_text(ui: TuiView) -> Seq<char> {
    goto_sequence(ui.start_pos.0, ui.start_pos.1) + CLEAR_AFTER@
}

/// The column of the terminal for offset `curs_pos` of the query.
fn column_of(curs_pos: usize) -> (x: u16)
    ensures
        x == cursor_column(curs_pos),
        x > 0,
{
    if curs_pos <= (u16::MAX - QUERY_COLUMN) as usize {
        curs_pos as u16 + QUERY_COLUMN
    } else {
        u16::MAX
    }
}

/// A line of text on a cleared line of the terminal.
pub fn println_cleared(out: &mut String, s: &str)
    ensures
        final(out)@ == old(out)@ + cleared_line(s@),
{
    let clear = clear_line();
    out.append(clear.as_str());
    out.append(s);
    out.append(NEWLINE);
    assert(out@ =~= old(out)@ + cleared_line(s@));
}

/// The information line.
pub fn print_info_line(out: &mut String, text: String)
    ensures
        final(out)@ == old(out)@ + info_line_text(text@),
{
    let mut line = fg_light_green();
    line.append(text.as_str());
    let reset = fg_reset();
    line.append(reset.as_str());
    println_cleared(out, line.as_str());
}

/// The rows of the window onto `lines[from..]`, with row `pos` marked as
/// the current one. The window has room for `display_lines` rows.
fn print_tree(out: &mut String, lines: &Vec<String>, from: usize, pos: usize, display_lines: usize)
    requires
        display_lines >= 1,
    ensures
        final(out)@ == old(out)@ + body_rows(
            lines.deep_view().skip(from as int),
            pos as int,
            display_lines as int,
            visible(lines.len() as int, from as int, display_lines as int),
        ),
{
    let ghost shown = lines.deep_view().skip(from as int);
    let ghost count = visible(lines.len() as int, from as int, display_lines as int);
    let mut highlight = bg_rgb(50, 50, 50);
    let red = fg_red();
    highlight.append(red.as_str());
    highlight.append(CURRENT_MARK);
    let reset = fg_reset();
    highlight.append(reset.as_str());
    assert(highlight@ =~= highlight_mark());
    let clear = clear_line();
    let bg = bg_reset();
    let mut i: usize = 0;
    assert(out@ + body_rows(shown, pos as int, display_lines as int, 0) =~= out@);
    while i < display_lines && from < lines.len() && i < lines.len() - from
        invariant
            display_lines >= 1,
            shown == lines.deep_view().skip(from as int),
            count == visible(lines.len() as int, from as int, display_lines as int),
            i <= count,
            highlight@ == highlight_mark(),
            clear@ == CLEAR_LINE@,
            bg@ == BG_RESET@,
            out@ == old(out)@ + body_rows(shown, pos as int, display_lines as int, i as int),
        decreases display_lines - i,
    {
        let ghost before = out@;
        let line = &lines[from + i];
        assert(shown[i as int] == line@);
        out.append(clear.as_str());
        if i == pos {
            out.append(highlight.as_str());
        } else {
            out.append(PLAIN_MARK);
        }
        out.append(line.as_str());
        out.append(bg.as_str());
        if i != display_lines - 1 {
            out.append(NEWLINE);
        }
        assert(out@ =~= before + body_row(line@, i as int, pos as int, display_lines as int));
        assert(old(out)@ + (body_rows(shown, pos as int, display_lines as int, i as int) + body_row(
            line@,
            i as int,
            pos as int,
            display_lines as int,
        )) =~= out@);
        i += 1;
    }
}

impl Tui {
    /// The viewport for a terminal of `size` columns and rows on which
    /// the cursor stands at column and row `start_pos`: see `created`.
    pub fn new(
        prompt: String,
        display_lines: usize,
        current_lines: usize,
        size: (u16, u16),
        start_pos: (u16, u16),
    ) -> (ui: Tui)
        requires
            display_lines >= 3,
            size.1 >= 3,
            start_pos.0 > 0,
        ensures
            ui@.wf(),
            ui@.in_view(),
            ui@ == created(prompt@, display_lines, current_lines, size, start_pos),
    {
        let display_lines = if display_lines <= size.1 as usize {
            display_lines
        } else {
            size.1 as usize
        };
        let mut start_pos = start_pos;
        let mut out = String::new();
        let min_line: u16 = size.1 - display_lines as u16;
        if min_line < start_pos.1 {
            let diff: u16 = start_pos.1 - min_line;
            out = scroll_up(diff);
            start_pos.1 = min_line;
        }
        Tui {
            start_pos,
            curs_pos: 0,
            line_pos: 0,
            offset: 0,
            chars: Vec::new(),
            stash: Vec::new(),
            chars_changed: false,
            prompt,
            display_lines,
            current_lines,
            out,
        }
    }

    /// Moves the cursor to the corner of the display.
    fn goto_start(&mut self)
        requires
            old(self)@.wf(),
        ensures
            final(self)@ == (TuiView {
                out: old(self)@.out + goto_sequence(old(self).start_pos.0, old(self).start_pos.1),
                ..old(self)@
            }),
    {
        let seq = goto(self.start_pos.0, self.start_pos.1);
        self.out.append(seq.as_str());
    }

    /// Offset, row and index of the current line, for debugging.
    pub fn info_line(&self) -> (line: String)
        requires
            self@.wf(),
        ensures
            line@ == debug_text(self@),
    {
        let mut line = String::new();
        line.append("offset: ");
        append_decimal(&mut line, self.offset);
        line.append(", line_pos: ");
        append_decimal(&mut line, self.line_pos);
        line.append(", index: ");
        append_decimal(&mut line, self.index());
        assert(line@ =~= debug_text(self@));
        line
    }

    /// The line of the query.
    fn print_input_line(&mut self)
        ensures
            final(self)@ == (TuiView {
                out: old(self)@.out + input_line(old(self)@.prompt, old(self)@.chars),
                ..old(self)@
            }),
    {
        let mut line = String::new();
        line.append(self.prompt.as_str());
        push_chars(&mut line, &self.chars);
        assert(line@ =~= self.prompt@ + self.chars@);
        println_cleared(&mut self.out, line.as_str());
    }

    /// The window onto `lines`.
    fn print_body(&mut self, lines: &Vec<String>)
        requires
            old(self)@.wf(),
        ensures
            final(self)@ == (TuiView {
                out: old(self)@.out + body(
                    lines.deep_view(),
                    old(self)@.offset as int,
                    old(self)@.line_pos as int,
                    old(self)@.rows(),
                ),
                ..old(self)@
            }),
    {
        let clear = clear_after();
        self.out.append(clear.as_str());
        let ghost cleared = self.out@;
        print_tree(&mut self.out, lines, self.offset, self.line_pos, self.display_lines - 2);
        assert(lines.deep_view().len() == lines.len());
        assert(self.out@ =~= old(self)@.out + body(
            lines.deep_view(),
            old(self)@.offset as int,
            old(self)@.line_pos as int,
            old(self)@.rows(),
        ));
    }

    /// Puts the cursor back into the query.
    fn return_cursor(&mut self)
        ensures
            final(self)@ == (TuiView {
                out: old(self)@.out + goto_sequence(
                    cursor_column(old(self).curs_pos),
                    old(self).start_pos.1,
                ),
                ..old(self)@
            }),
    {
        let seq = goto(column_of(self.curs_pos), self.start_pos.1);
        self.out.append(seq.as_str());
    }

    /// Hands over what is to be written to the terminal.
    pub fn flush(&mut self) -> (written: String)
        ensures
            written@ == old(self)@.out,
            final(self)@ == (TuiView { out: Seq::empty(), ..old(self)@ }),
    {
        let mut written = String::new();
        core::mem::swap(&mut self.out, &mut written);
        written
    }

    /// Moves the current line up by one: within the window if it is not
    /// on its first row, with the window if the window can move. Does
    /// nothing on the first line.
    pub fn move_up(&mut self)
        requires
            old(self)@.wf(),
        ensures
            final(self)@.wf(),
            old(self)@.in_view() ==> final(self)@.in_view(),
            final(self)@ == old(self)@.moved_up(),
    {
        if self.line_pos == 0 && self.offset == 0 {
            // Do nothing
        } else if self.line_pos == 0 && self.offset > 0 {
            self.offset -= 1;
        } else {
            self.line_pos -= 1;
        }
    }

    /// Moves the current line down by one: within the window if it is not
    /// on its last row, with the window if it is. Does nothing on the last
    /// line, and nothing if there are no lines.
    pub fn move_down(&mut self)
        requires
            old(self)@.wf(),
        ensures
            final(self)@.wf(),
            old(self)@.in_view() ==> final(self)@.in_view(),
            final(self)@ == old(self)@.moved_down(),
    {
        if self.current_lines == 0 {
            return ;
        }
        let x = self.line_pos;
        if x + self.offset >= self.current_lines - 1 {
            // Do nothing
        } else if x == self.display_lines - 3 {
            self.offset += 1;
        } else {
            self.line_pos += 1;
        }
    }

    /// Moves the window up by its height. If it cannot move that far it
    /// moves to the first line, and if it is there the current line moves
    /// to its first row.
    pub fn page_up(&mut self)
        requires
            old(self)@.wf(),
        ensures
            final(self)@.wf(),
            old(self)@.in_view() ==> final(self)@.in_view(),
            final(self)@ == old(self)@.paged_up(),
    {
        if self.offset >= self.display_lines {
            self.offset -= self.display_lines;
        } else {
            if self.offset == 0 {
                self.line_pos = 0;
            } else {
                self.offset = 0;
            }
        }
    }

    /// Moves the window down by its height. If that would take it past
    /// the last line, its first row snaps to the last line and becomes
    /// current; if it takes the current line past the last line, the
    /// current line moves up to the last line. Does nothing if there are
    /// no lines.
    pub fn page_down(&mut self)
        requires
            old(self)@.wf(),
        ensures
            final(self)@.wf(),
            old(self)@.in_view() ==> final(self)@.in_view(),
            final(self)@ == old(self)@.paged_down(),
    {
        if self.current_lines == 0 {
        } else if self.offset >= self.current_lines || self.current_lines - self.offset
            <= self.display_lines {
            self.offset = self.current_lines - 1;
            self.line_pos = 0;
        } else {
            self.offset += self.display_lines;
            let room = self.current_lines - 1 - self.offset;
            if self.line_pos > room {
                self.line_pos = room;
            }
        }
    }

    /// Moves the cursor one character to the left, if it is not at the
    /// start of the query.
    pub fn move_left(&mut self)
        requires
            old(self)@.wf(),
        ensures
            final(self)@.wf(),
            final(self)@ == old(self)@.moved_left(),
    {
        if self.curs_pos > 0 {
            self.curs_pos -= 1;
        }
    }

    /// Moves the cursor one character to the right, if it is not at the
    /// end of the query.
    pub fn move_right(&mut self)
        requires
            old(self)@.wf(),
        ensures
            final(self)@.wf(),
            final(self)@ == old(self)@.moved_right(),
    {
        if self.curs_pos < self.chars.len() {
            self.curs_pos += 1;
        }
    }

    /// Moves the cursor to the start of the query.
    pub fn home(&mut self)
        requires
            old(self)@.wf(),
        ensures
            final(self)@.wf(),
            final(self)@ == old(self)@.at_home(),
    {
        self.curs_pos = 0;
    }

    /// Moves the cursor to the end of the query.
    pub fn end(&mut self)
        requires
            old(self)@.wf(),
        ensures
            final(self)@.wf(),
            final(self)@ == old(self)@.at_end(),
    {
        self.curs_pos = self.chars.len();
    }

    /// The index of the current line among the lines of the tree.
    pub fn index(&self) -> (i: usize)
        requires
            self@.wf(),
        ensures
            i == self@.index(),
    {
        self.line_pos + self.offset
    }

    /// The query as a string.
    pub fn current_input(&self) -> (input: String)
        ensures
            input@ == self@.chars,
    {
        chars_to_str(&self.chars)
    }
}

/// The string of the characters `chars`.
pub fn chars_to_str(chars: &Vec<char>) -> (s: String)
    ensures
        s@ == chars@,
{
    string_of(chars)
}

/// The offset at which the run of characters that ends before `pos` and
/// that are all white space, if `space`, or all other characters, if not,
/// begins.
pub open spec fn run_start(chars: Seq<char>, pos: int, space: bool) -> int
    decreases pos,
{
    if 0 < pos <= chars.len() && is_whitespace(chars[pos - 1]) == space {
        run_start(chars, pos - 1, space)
    } else {
        pos
    }
}

/// The offset at which the word before `pos` begins: the white space
/// before `pos`, if there is any, belongs to the word before it.
pub open spec fn word_start(chars: Seq<char>, pos: int) -> int {
    run_start(chars, run_start(chars, pos, true), false)
}

/// A run begins at or before the place where it ends.
pub proof fn lemma_run_start(chars: Seq<char>, pos: int, space: bool)
    requires
        0 <= pos <= chars.len(),
    ensures
        0 <= run_start(chars, pos, space) <= pos,
        pos > 0 && is_whitespace(chars[pos - 1]) == space ==> run_start(chars, pos, space) < pos,
    decreases pos,
{
    if pos > 0 && is_whitespace(chars[pos - 1]) == space {
        lemma_run_start(chars, pos - 1, space);
    }
}

/// The offset at which the run that ends before `pos` begins.
fn find_run_start(chars: &Vec<char>, pos: usize, space: bool) -> (start: usize)
    requires
        pos <= chars.len(),
    ensures
        start == run_start(chars@, pos as int, space),
        start <= pos,
{
    let mut start = pos;
    while start > 0 && char_is_whitespace(chars[start - 1]) == space
        invariant
            start <= pos,
            pos <= chars.len(),
            run_start(chars@, start as int, space) == run_start(chars@, pos as int, space),
        decreases start,
    {
        start -= 1;
    }
    start
}

/// The offset at which the word before `pos` begins.
fn find_word_start(chars: &Vec<char>, pos: usize) -> (start: usize)
    requires
        pos <= chars.len(),
    ensures
        start == word_start(chars@, pos as int),
        start <= pos,
        pos > 0 ==> start < pos,
{
    let gap = find_run_start(chars, pos, true);
    let start = find_run_start(chars, gap, false);
    proof {
        lemma_run_start(chars@, pos as int, true);
        lemma_run_start(chars@, gap as int, false);
    }
    start
}

/// The characters of `chars` from `from` up to `to`.
fn copy_range(chars: &Vec<char>, from: usize, to: usize) -> (copy: Vec<char>)
    requires
        from <= to <= chars.len(),
    ensures
        copy@ == chars@.subrange(from as int, to as int),
{
    let mut copy: Vec<char> = Vec::new();
    let mut i: usize = from;
    while i < to
        invariant
            from <= i <= to,
            to <= chars.len(),
            copy@ == chars@.subrange(from as int, i as int),
        decreases to - i,
    {
        copy.push(chars[i]);
        assert(copy@ =~= chars@.subrange(from as int, i + 1));
        i += 1;
    }
    copy
}

impl Tui {
    /// Moves the cursor to the start of the word before it.
    pub fn move_left_word(&mut self)
        requires
            old(self)@.wf(),
        ensures
            final(self)@.wf(),
            final(self)@ == old(self)@.moved_left_word(),
    {
        self.curs_pos = find_word_start(&self.chars, self.curs_pos);
    }

    /// Cuts the word before the cursor, with the white space between it
    /// and the cursor, out of the query and into the cut buffer. Does
    /// nothing if the cursor is at the start of the query.
    pub fn word_stash(&mut self)
        requires
            old(self)@.wf(),
        ensures
            final(self)@.wf(),
            final(self)@ == old(self)@.word_stashed(),
    {
        if self.curs_pos < 1 {
            return ;
        }
        let start = find_word_start(&self.chars, self.curs_pos);
        let popped = copy_range(&self.chars, start, self.curs_pos);
        let mut rest = copy_range(&self.chars, 0, start);
        let mut tail = copy_range(&self.chars, self.curs_pos, self.chars.len());
        rest.append(&mut tail);
        assert(rest@ =~= old(self)@.chars.take(start as int) + old(self)@.chars.skip(
            old(self).curs_pos as int,
        ));
        self.chars = rest;
        self.chars_changed = true;
        self.stash = popped;
        self.curs_pos = start;
    }

    /// Cuts the text from the cursor to the end of the query into the cut
    /// buffer.
    pub fn stash(&mut self)
        requires
            old(self)@.wf(),
        ensures
            final(self)@.wf(),
            final(self)@ == old(self)@.stashed(),
    {
        let tail = self.chars.split_off(self.curs_pos);
        assert(self.chars@ =~= old(self)@.chars.take(old(self).curs_pos as int));
        assert(tail@ =~= old(self)@.chars.skip(old(self).curs_pos as int));
        self.stash = tail;
        self.chars_changed = true;
    }

    /// Puts the text of the cut buffer into the query at the cursor, and
    /// the cursor behind it.
    pub fn pop(&mut self)
        requires
            old(self)@.wf(),
            old(self)@.chars.len() + old(self)@.stash.len() <= usize::MAX,
        ensures
            final(self)@.wf(),
            final(self)@ == old(self)@.popped(),
    {
        let curs_pos = self.curs_pos;
        let mut joined = copy_range(&self.chars, 0, curs_pos);
        let mut middle = copy_range(&self.stash, 0, self.stash.len());
        let mut tail = copy_range(&self.chars, curs_pos, self.chars.len());
        joined.append(&mut middle);
        joined.append(&mut tail);
        assert(joined@ =~= old(self)@.chars.take(curs_pos as int) + old(self)@.stash + old(
            self,
        )@.chars.skip(curs_pos as int));
        self.curs_pos = curs_pos + self.stash.len();
        if self.stash.len() > 0 {
            self.chars_changed = true;
        }
        self.chars = joined;
    }

    /// Puts `c` into the query at the cursor, and the cursor behind it.
    pub fn insert_char(&mut self, c: char)
        requires
            old(self)@.wf(),
            old(self)@.chars.len() < usize::MAX,
        ensures
            final(self)@.wf(),
            final(self)@ == old(self)@.inserted(c),
    {
        self.chars.insert(self.curs_pos, c);
        self.curs_pos += 1;
        self.chars_changed = true;
    }

    /// Takes the character before the cursor out of the query, if there
    /// is one.
    pub fn backspace(&mut self)
        requires
            old(self)@.wf(),
        ensures
            final(self)@.wf(),
            final(self)@ == old(self)@.backspaced(),
    {
        if self.curs_pos > 0 {
            self.chars.remove(self.curs_pos - 1);
            self.curs_pos -= 1;
            self.chars_changed = true;
        }
    }

    /// Takes the character at the cursor out of the query, if there is
    /// one.
    pub fn delete(&mut self)
        requires
            old(self)@.wf(),
        ensures
            final(self)@.wf(),
            final(self)@ == old(self)@.deleted(),
    {
        if self.curs_pos < self.chars.len() {
            self.chars.remove(self.curs_pos);
            self.chars_changed = true;
        }
    }

    /// Clears the display and hands over the output of the session: the
    /// path names of the nodes that are selected, separated by single
    /// spaces, with nothing in front of the first and nothing behind the
    /// last.
    pub fn print_paths(&mut self, paths: &Vec<Path>) -> (selection: String)
        requires
            old(self)@.wf(),
        ensures
            final(self)@ == (TuiView {
                out: old(self)@.out + clearing_text(old(self)@),
                ..old(self)@
            }),
            selection@ == selected_names(paths.deep_view()),
    {
        self.goto_start();
        let clear = clear_after();
        self.out.append(clear.as_str());
        assert(self@.out =~= old(self)@.out + clearing_text(old(self)@));
        let ghost nodes = paths.deep_view();
        let mut selection = String::new();
        let mut any = false;
        let mut i: usize = 0;
        while i < paths.len()
            invariant
                i <= paths.len(),
                nodes == paths.deep_view(),
                any == (selected_paths(nodes, i as int).len() > 0),
                selection@ == join(selected_paths(nodes, i as int), ' '),
            decreases paths.len() - i,
        {
            assert(nodes[i as int] == paths[i as int]@);
            let ghost names = selected_paths(nodes, i as int);
            if paths[i].selected {
                if any {
                    push_char(&mut selection, ' ');
                }
                selection.append(paths[i].joined.as_str());
                any = true;
                proof {
                    let more = names.push(nodes[i as int].joined);
                    assert(more.drop_last() =~= names);
                    assert(selection@ =~= join(more, ' '));
                }
            }
            i += 1;
        }
        assert(nodes.len() == paths.len());
        selection
    }

    /// Moves the window up when there are fewer lines than there were.
    fn adjust_offset(&mut self, new_len: usize)
        ensures
            final(self)@ == (TuiView {
                offset: if new_len < old(self).current_lines {
                    if old(self).offset <= old(self).current_lines - new_len {
                        0
                    } else {
                        (old(self).offset - (old(self).current_lines - new_len)) as usize
                    }
                } else {
                    old(self).offset
                },
                ..old(self)@
            }),
    {
        if new_len < self.current_lines {
            let fewer = self.current_lines - new_len;
            let diff = if self.offset <= fewer {
                self.offset
            } else {
                fewer
            };
            self.offset -= diff;
        }
    }

    /// Takes in the lines of the tree and hands over the frame that shows
    /// them, behind whatever was still to be written.
    ///
    /// The window is first put right for the new number of lines, see
    /// `clamped`. Afterwards the query counts as unchanged.
    pub fn render(&mut self, info_line: String, path_lines: Vec<String>) -> (written: String)
        requires
            old(self)@.wf(),
        ensures
            final(self)@.wf(),
            final(self)@ == rendered(old(self)@, path_lines.len()),
            written@ == old(self)@.out + frame(
                clamped(old(self)@, path_lines.len()),
                info_line@,
                path_lines.deep_view(),
            ),
            old(self)@.in_view() && (old(self).chars_changed || old(self)@.index()
                < path_lines.len()) ==> final(self)@.in_view(),
    {
        if self.chars_changed && self.index() >= path_lines.len() {
            self.adjust_offset(path_lines.len());
            let x = if path_lines.len() > 1 {
                path_lines.len() - 1
            } else {
                0
            };
            if self.line_pos > x {
                self.line_pos = x;
            }
        }
        self.current_lines = path_lines.len();
        assert(self@ == (TuiView { out: old(self)@.out, ..clamped(old(self)@, path_lines.len()) }));
        let ghost shown = self@;
        self.goto_start();
        self.print_input_line();
        print_info_line(&mut self.out, info_line);
        self.print_body(&path_lines);
        self.return_cursor();
        self.chars_changed = false;
        let written = self.flush();
        assert(written@ =~= old(self)@.out + frame(
            clamped(old(self)@, path_lines.len()),
            info_line@,
            path_lines.deep_view(),
        ));
        written
    }
}

} // verus!
