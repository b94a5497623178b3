use std::collections::HashMap;

use neoparinfer::legacy::{
    handle_change_delta, process_text, Change, Changes, LineState, Mode, Options, Pos,
};

fn changes_at(row: usize, col: usize, old_end_col: usize, new_end_col: usize) -> Changes {
    let mut cols = HashMap::new();
    cols.insert(
        col,
        Change { old_end_col, new_end_col, lookup_row: row, lookup_col: col },
    );
    let mut changes = HashMap::new();
    changes.insert(row, cols);
    changes
}

#[test]
fn change_moves_indent_in_paren_mode() {
    let changes = changes_at(2, 5, 7, 10);
    let options = Options { mode: Mode::Paren, smart: false };
    let mut state = LineState::default();
    handle_change_delta(&mut state, &Pos { row: 2, col: 5 }, &options, &changes);
    assert_eq!(state.indent_delta, 3);
    handle_change_delta(&mut state, &Pos { row: 2, col: 5 }, &options, &changes);
    assert_eq!(state.indent_delta, 6);
    assert_eq!(state.indent_x, 0);
    assert_eq!(state.comment_x, 0);
    assert!(!state.tracking_indent);
}

#[test]
fn change_moves_indent_in_smart_mode() {
    let changes = changes_at(0, 0, 9, 4);
    let options = Options { mode: Mode::Indent, smart: true };
    let mut state = LineState::default();
    handle_change_delta(&mut state, &Pos::default(), &options, &changes);
    assert_eq!(state.indent_delta, -5);
}

#[test]
fn change_ignored_in_plain_indent_mode() {
    let changes = changes_at(0, 0, 9, 4);
    let options = Options { mode: Mode::Indent, smart: false };
    let mut state = LineState::default();
    handle_change_delta(&mut state, &Pos::default(), &options, &changes);
    assert_eq!(state.indent_delta, 0);
}

#[test]
fn no_change_at_other_positions() {
    let changes = changes_at(1, 3, 0, 8);
    let options = Options { mode: Mode::Paren, smart: true };
    let mut state = LineState::default();
    handle_change_delta(&mut state, &Pos { row: 1, col: 4 }, &options, &changes);
    handle_change_delta(&mut state, &Pos { row: 3, col: 3 }, &options, &changes);
    assert_eq!(state.indent_delta, 0);
}

#[test]
fn process_empty_text() {
    let options = Options { mode: Mode::Paren, smart: false };
    process_text("", &options, &HashMap::new());
}

#[test]
fn defaults_are_zero() {
    let pos = Pos::default();
    assert_eq!((pos.row, pos.col), (0, 0));
    let state = LineState::default();
    assert_eq!((state.indent_x, state.comment_x, state.indent_delta), (0, 0, 0));
    assert!(!state.tracking_indent);
}
