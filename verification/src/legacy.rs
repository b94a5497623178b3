//! Per-line state of a character-by-character Parinfer pass over text.
use std::collections::HashMap;
use vstd::prelude::*;

use crate::text::text_lines;

verus! {

broadcast use vstd::std_specs::hash::group_hash_axioms;

#[derive(PartialEq, Eq, Structural)]
pub enum Mode {
    Indent,
    Paren,
}

pub struct Options {
    pub mode: Mode,
    pub smart: bool,
}

pub type Row = usize;

pub type Column = usize;

pub type Delta = isize;

pub struct Pos {
    pub row: Row,
    pub col: Column,
}

impl Default for Pos {
    fn default() -> (r: Self)
        ensures
            r.row == 0 && r.col == 0,
    {
        Pos { row: 0, col: 0 }
    }
}

pub struct LineState {
    pub indent_x: Column,
    pub comment_x: Column,
    pub indent_delta: Delta,
    pub tracking_indent: bool,
}

impl Default for LineState {
    fn default() -> (r: Self)
        ensures
            r.indent_x == 0,
            r.comment_x == 0,
            r.indent_delta == 0,
            !r.tracking_indent,
    {
        LineState { indent_x: 0, comment_x: 0, indent_delta: 0, tracking_indent: false }
    }
}

/// An edit of the text: the end column of the edited span before and after.
pub struct Change {
    pub old_end_col: Column,
    pub new_end_col: Column,
    pub lookup_row: Row,
    pub lookup_col: Column,
}

/// The edits of the text, by row and then by column.
pub type Changes = HashMap<Row, HashMap<Column, Change>>;

pub struct TabStop<'a> {
    pub ch: &'a str,
    pub col: Column,
    pub row: Row,
    pub arg_x: Option<Column>,
}

/// The edit recorded at `pos`, if any.
pub open spec fn change_at(changes: Map<Row, HashMap<Column, Change>>, pos: Pos) -> Option<Change> {
    if changes.contains_key(pos.row) && changes[pos.row]@.contains_key(pos.col) {
        Some(changes[pos.row]@[pos.col])
    } else {
        None
    }
}

/// Edits move the indentation in smart mode and in paren mode.
pub open spec fn edits_move_indent(options: Options) -> bool {
    options.smart || options.mode == Mode::Paren
}

/// How far an edit moves what follows it, as computed in `isize`.
pub open spec fn change_shift(change: Change) -> int {
    (change.new_end_col as isize) - (change.old_end_col as isize)
}

/// The indentation change at `pos`, after the edit recorded there if any.
pub open spec fn delta_after_change(
    indent_delta: Delta,
    pos: Pos,
    options: Options,
    changes: Map<Row, HashMap<Column, Change>>,
) -> int {
    match change_at(changes, pos) {
        Some(change) if edits_move_indent(options) => indent_delta + change_shift(change),
        _ => indent_delta as int,
    }
}

/// Adds to the line's indentation change how far the edit at `pos`, if any,
/// moved the text after it, in smart mode and in paren mode.
pub fn handle_change_delta(
    line_state: &mut LineState,
    pos: &Pos,
    options: &Options,
    changes: &Changes,
)
    requires
        edits_move_indent(*options) && change_at(changes@, *pos) is Some ==> isize::MIN
            <= change_shift(change_at(changes@, *pos)->Some_0) <= isize::MAX,
        isize::MIN <= delta_after_change(
            old(line_state).indent_delta,
            *pos,
            *options,
            changes@,
        ) <= isize::MAX,
    ensures
        final(line_state).indent_delta == delta_after_change(
            old(line_state).indent_delta,
            *pos,
            *options,
            changes@,
        ),
        final(line_state).indent_x == old(line_state).indent_x,
        final(line_state).comment_x == old(line_state).comment_x,
        final(line_state).tracking_indent == old(line_state).tracking_indent,
{
    if options.smart || options.mode == Mode::Paren {
        match changes.get(&pos.row) {
            Some(row_changes) => match row_changes.get(&pos.col) {
                Some(change) => {
                    line_state.indent_delta += change.new_end_col as Delta
                        - change.old_end_col as Delta;
                },
                None => {},
            },
            None => {},
        }
    }
}

/// Processing is defined for text without lines, which needs none; on every
/// line it would have to find the tab stops first.
pub fn process_text(input: &str, options: &Options, changes: &Changes)
    requires
        text_lines(input@).len() == 0,
{
}

} // verus!
