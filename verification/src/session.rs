//! A session: what each key does to the tree and to the viewport, and what
//! is written to the terminal in answer to it.
//!
//! The caller owns the terminal. It reads a key, hands it to `handle_key`,
//! writes what comes back, and goes on or stops as the outcome says.

use crate::display::lines_of;
use crate::matching::filtered;
use crate::path::PathView;
use crate::term::{fg_blue, fg_reset, FG_BLUE, FG_RESET};
use crate::tree::{collapsed, info_text, Tree};
use crate::tui::{
    clamped, clearing_text, created, debug_text, frame, rendered, selected_names, Tui, TuiView,
};
use vstd::prelude::*;

verus! {

/// The status with which the program ends after an interrupt.
pub const EXIT_INTERRUPT: i32 = 130;

/// The characters of the prompt between its colours.
pub const PROMPT_MARK: &'static str = "> ";

/// A key of the keyboard.
#[derive(Clone, Copy, PartialEq, Eq, Debug)]
pub enum Key {
    Esc,
    Char(char),
    Ctrl(char),
    Left,
    Right,
    Up,
    Down,
    PageUp,
    PageDown,
    Backspace,
    Delete,
    Home,
    End,
    /// Any other key.
    Other,
}

/// How the session goes on after a key.
#[derive(Clone, Copy, PartialEq, Eq, Debug)]
pub enum Outcome {
    /// The session goes on.
    Continue,
    /// The selection is accepted: its path names have been written.
    Accept,
    /// The session ends without a selection.
    Abort,
    /// The session was interrupted: the program ends with
    /// `EXIT_INTERRUPT`.
    Interrupt,
}

/// The outcome of a key: escape aborts, a new line accepts, control-C
/// interrupts, and after every other key the session goes on.
pub open spec fn outcome_of(key: Key) -> Outcome {
    match key {
        Key::Esc => Outcome::Abort,
        Key::Char(c) => if c == '\n' {
            Outcome::Accept
        } else {
            Outcome::Continue
        },
        Key::Ctrl(c) => if c == 'c' {
            Outcome::Interrupt
        } else {
            Outcome::Continue
        },
        _ => Outcome::Continue,
    }
}

/// The nodes after a key: a tab selects the current line or takes it out
/// of the selection, a backtick opens or closes it, and a new line selects
/// it if nothing is selected. No other key changes the nodes.
pub open spec fn nodes_after(tree: Tree, index: usize, key: Key) -> Seq<PathView> {
    match key {
        Key::Char(c) => if c == '\t' {
            tree.selected_flipped(index)
        } else if c == '`' {
            tree.open_flipped(index)
        } else if c == '\n' && tree.n_selected == 0 {
            tree.selected_flipped(index)
        } else {
            tree.nodes()
        },
        _ => tree.nodes(),
    }
}

/// The output of the session after a key: the path names of the nodes
/// that are selected after a new line, separated by single spaces, and
/// nothing after any other key.
pub open spec fn selection_after(tree: Tree, index: usize, key: Key) -> Seq<char> {
    if key == Key::Char('\n') {
        selected_names(nodes_after(tree, index, key))
    } else {
        Seq::empty()
    }
}

/// The viewport after a key, before the next frame.
pub open spec fn ui_after(ui: TuiView, key: Key) -> TuiView {
    match key {
        Key::Char(c) => if c == '\t' {
            ui.moved_down()
        } else if c == '`' {
            ui
        } else if c == '\n' {
            TuiView { out: ui.out + clearing_text(ui), ..ui }
        } else {
            ui.inserted(c)
        },
        Key::Ctrl(c) => if c == 'u' {
            ui.stashed()
        } else if c == 'w' {
            ui.word_stashed()
        } else if c == 'y' {
            ui.popped()
        } else {
            ui
        },
        Key::Left => ui.moved_left(),
        Key::Right => ui.moved_right(),
        Key::Up => ui.moved_up(),
        Key::Down => ui.moved_down(),
        Key::PageUp => ui.paged_up(),
        Key::PageDown => ui.paged_down(),
        Key::Backspace => ui.backspaced(),
        Key::Delete => ui.deleted(),
        Key::Home => ui.at_home(),
        Key::End => ui.at_end(),
        Key::Esc => ui,
        Key::Other => ui,
    }
}

/// The prompt: `PROMPT_MARK` in blue.
pub fn prompt() -> (s: String)
    ensures
        s@ == FG_BLUE@ + PROMPT_MARK@ + FG_RESET@,
{
    let mut s = fg_blue();
    s.append(PROMPT_MARK);
    let reset = fg_reset();
    s.append(reset.as_str());
    s
}

/// Does to the tree and to the viewport what `key` asks for, and tells how
/// the session goes on and what its output is.
pub fn apply_key(tree: &mut Tree, ui: &mut Tui, key: Key) -> (done: (Outcome, String))
    requires
        old(tree).wf(),
        old(ui)@.wf(),
        old(ui)@.can_grow(),
    ensures
        done.0 == outcome_of(key),
        done.1@ == selection_after(*old(tree), old(ui)@.index() as usize, key),
        final(tree).wf(),
        final(tree).same_frame(old(tree)),
        final(tree).nodes() == nodes_after(*old(tree), old(ui)@.index() as usize, key),
        final(ui)@ == ui_after(old(ui)@, key),
        done.0 == Outcome::Continue ==> final(ui)@.wf(),
        done.0 == Outcome::Continue && old(ui)@.in_view() ==> final(ui)@.in_view(),
{
    let mut selection = String::new();
    let outcome = match key {
        Key::Esc => Outcome::Abort,
        Key::Char(c) => {
            if c == '\t' {
                tree.flip_selected(ui.index());
                ui.move_down();
                Outcome::Continue
            } else if c == '`' {
                tree.flip_open(ui.index());
                Outcome::Continue
            } else if c == '\n' {
                if tree.n_selected == 0 {
                    tree.flip_selected(ui.index());
                }
                selection = ui.print_paths(&tree.paths);
                Outcome::Accept
            } else {
                ui.insert_char(c);
                Outcome::Continue
            }
        },
        Key::Ctrl(c) => {
            if c == 'c' {
                Outcome::Interrupt
            } else {
                if c == 'u' {
                    ui.stash();
                } else if c == 'w' {
                    ui.word_stash();
                } else if c == 'y' {
                    ui.pop();
                }
                Outcome::Continue
            }
        },
        Key::Left => {
            ui.move_left();
            Outcome::Continue
        },
        Key::Right => {
            ui.move_right();
            Outcome::Continue
        },
        Key::Up => {
            ui.move_up();
            Outcome::Continue
        },
        Key::Down => {
            ui.move_down();
            Outcome::Continue
        },
        Key::PageUp => {
            ui.page_up();
            Outcome::Continue
        },
        Key::PageDown => {
            ui.page_down();
            Outcome::Continue
        },
        Key::Backspace => {
            ui.backspace();
            Outcome::Continue
        },
        Key::Delete => {
            ui.delete();
            Outcome::Continue
        },
        Key::Home => {
            ui.home();
            Outcome::Continue
        },
        Key::End => {
            ui.end();
            Outcome::Continue
        },
        Key::Other => Outcome::Continue,
    };
    (outcome, selection)
}

/// The nodes that the next frame shows: those that the query of the
/// viewport leaves of `nodes` if the query has changed, and `nodes` as
/// they are if it has not.
pub open spec fn refreshed(nodes: Seq<PathView>, ui: TuiView) -> Seq<PathView> {
    if ui.chars_changed {
        filtered(nodes, ui.chars)
    } else {
        nodes
    }
}

/// The text of the information line: the counts of the tree, and behind
/// them, if `debug`, the place of the current line.
pub open spec fn info_of(tree: Tree, ui: TuiView, debug: bool) -> Seq<char> {
    if debug {
        info_text(tree.n_selected as nat, tree.n_matches as nat, tree.n_paths as nat) + debug_text(
            ui,
        )
    } else {
        info_text(tree.n_selected as nat, tree.n_matches as nat, tree.n_paths as nat)
    }
}

/// Filters the tree by the query if the query has changed, and hands over
/// the frame that shows the tree and the query as they are then.
pub fn refresh(tree: &mut Tree, ui: &mut Tui, debug: bool) -> (written: String)
    requires
        old(tree).wf(),
        old(ui)@.wf(),
    ensures
        final(tree).wf(),
        final(tree).nodes() == refreshed(old(tree).nodes(), old(ui)@),
        final(tree).n_selected == old(tree).n_selected,
        final(ui)@.wf(),
        final(ui)@ == rendered(old(ui)@, final(tree).rows().len() as usize),
        written@ == old(ui)@.out + frame(
            clamped(old(ui)@, final(tree).rows().len() as usize),
            info_of(*final(tree), old(ui)@, debug),
            lines_of(final(tree).nodes(), final(tree).rows()),
        ),
        old(ui)@.in_view() && (old(ui).chars_changed || old(ui)@.index()
            < final(tree).rows().len()) ==> final(ui)@.in_view(),
{
    if ui.chars_changed {
        let query = ui.current_input();
        tree.filter(query.as_str());
    }
    let mut info_line = tree.info_line();
    if debug {
        let place = ui.info_line();
        info_line.append(place.as_str());
    }
    let lines = tree.as_lines();
    assert(lines.deep_view().len() == lines.len());
    ui.render(info_line, lines)
}

/// The answer to a key.
#[derive(Debug, PartialEq, Eq)]
pub struct Answer {
    /// How the session goes on.
    pub outcome: Outcome,
    /// What is to be written to the terminal.
    pub written: String,
    /// The output of the session: the selection, once it is accepted.
    pub selection: String,
}

/// Answers a key: does what it asks for and hands over what is to be
/// written to the terminal, and the output of the session.
///
/// While the session goes on, what is written is the next frame. When the
/// selection is accepted it is what clears the display, and the output is
/// the path names of the selection, separated by single spaces. When the
/// session is aborted or interrupted, what is written is whatever was
/// still to be written, and there is no output.
pub fn handle_key(tree: &mut Tree, ui: &mut Tui, key: Key, debug: bool) -> (answer: Answer)
    requires
        old(tree).wf(),
        old(ui)@.wf(),
        old(ui)@.can_grow(),
    ensures
        answer.outcome == outcome_of(key),
        answer.selection@ == selection_after(*old(tree), old(ui)@.index() as usize, key),
        final(tree).wf(),
        answer.outcome == Outcome::Continue ==> {
            let nodes = nodes_after(*old(tree), old(ui)@.index() as usize, key);
            let edited = ui_after(old(ui)@, key);
            &&& final(tree).nodes() == refreshed(nodes, edited)
            &&& final(ui)@.wf()
            &&& final(ui)@ == rendered(edited, final(tree).rows().len() as usize)
            &&& answer.written@ == edited.out + frame(
                clamped(edited, final(tree).rows().len() as usize),
                info_of(*final(tree), edited, debug),
                lines_of(final(tree).nodes(), final(tree).rows()),
            )
        },
        answer.outcome != Outcome::Continue ==> {
            let nodes = nodes_after(*old(tree), old(ui)@.index() as usize, key);
            let edited = ui_after(old(ui)@, key);
            &&& final(tree).nodes() == nodes
            &&& final(ui)@ == (TuiView { out: Seq::empty(), ..edited })
            &&& answer.written@ == edited.out
        },
{
    let (outcome, selection) = apply_key(tree, ui, key);
    let written = match outcome {
        Outcome::Continue => refresh(tree, ui, debug),
        _ => ui.flush(),
    };
    Answer { outcome, written, selection }
}

/// Begins a session on a tree that has just been built: closes the
/// directories with more than `n_collapse` children and hands over the
/// viewport and the first frame.
pub fn start(
    tree: &mut Tree,
    n_collapse: usize,
    n_lines: usize,
    size: (u16, u16),
    start_pos: (u16, u16),
) -> (begun: (Tui, String))
    requires
        old(tree).wf(),
        n_lines >= 3,
        size.1 >= 3,
        start_pos.0 > 0,
    ensures
        final(tree).wf(),
        final(tree).n_matches == old(tree).n_matches,
        final(tree).n_selected == old(tree).n_selected,
        final(tree).nodes() == collapsed(old(tree).nodes(), n_collapse),
        begun.0@.wf(),
        begun.0@.in_view(),
        ({
            let count = final(tree).rows().len() as usize;
            let made = created(
                FG_BLUE@ + PROMPT_MARK@ + FG_RESET@,
                n_lines,
                count,
                size,
                start_pos,
            );
            &&& begun.0@ == rendered(made, count)
            &&& begun.1@ == made.out + frame(
                made,
                info_of(*final(tree), made, false),
                lines_of(final(tree).nodes(), final(tree).rows()),
            )
        }),
{
    tree.collapse_over(n_collapse);
    let lines = tree.as_lines();
    assert(lines.deep_view().len() == lines.len());
    let mut ui = Tui::new(prompt(), n_lines, lines.len(), size, start_pos);
    let info_line = tree.info_line();
    let written = ui.render(info_line, lines);
    (ui, written)
}

} // verus!
