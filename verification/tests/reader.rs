use neoparinfer::{ParenNode, ParenNodeKind, ReaderState};

#[test]
fn test_reader() {
    let reader = ReaderState::default();
    println!(
        "{:#?}",
        reader.read(
            "
(a b
 (c d))"
        )
    );
}

fn atom<'a>(node: &'a ParenNode<'a>) -> &'a str {
    match node.kind {
        ParenNodeKind::Atom(s) => s,
        ParenNodeKind::Paren(_) => panic!("not an atom"),
    }
}

fn children<'a>(node: &'a ParenNode<'a>) -> &'a Vec<ParenNode<'a>> {
    match &node.kind {
        ParenNodeKind::Paren(v) => v,
        ParenNodeKind::Atom(_) => panic!("not a list"),
    }
}

#[test]
fn reader_builds_nested_lists() {
    let tree = ReaderState::default().read("\n(a b\n (c d))");
    assert_eq!(tree.len(), 1);
    let outer = &tree[0];
    assert_eq!((outer.row, outer.col), (1, 0));
    let items = children(outer);
    assert_eq!(items.len(), 2);
    // whitespace does not end an atom; a paren or the end of a line does
    assert_eq!(atom(&items[0]), "a b");
    assert_eq!((items[0].row, items[0].col), (1, 1));
    let inner = &items[1];
    assert_eq!((inner.row, inner.col), (2, 1));
    let inner_items = children(inner);
    assert_eq!(inner_items.len(), 1);
    assert_eq!(atom(&inner_items[0]), "c d");
    assert_eq!((inner_items[0].row, inner_items[0].col), (2, 2));
}

#[test]
fn reader_empty_and_blank_text() {
    assert!(ReaderState::default().read("").is_empty());
    assert!(ReaderState::default().read("  \n\t\n").is_empty());
}

#[test]
fn reader_atoms_per_line() {
    let tree = ReaderState::default().read("foo\r\n  bar baz\n");
    assert_eq!(tree.len(), 2);
    assert_eq!(atom(&tree[0]), "foo");
    assert_eq!((tree[0].row, tree[0].col), (0, 0));
    assert_eq!(atom(&tree[1]), "bar baz");
    assert_eq!((tree[1].row, tree[1].col), (1, 2));
}

#[test]
fn reader_columns_are_display_widths() {
    // a wide character takes two columns
    let tree = ReaderState::default().read("漢(x)");
    assert_eq!(tree.len(), 2);
    assert_eq!(atom(&tree[0]), "漢");
    assert_eq!(tree[1].col, 2);
    let items = children(&tree[1]);
    assert_eq!(atom(&items[0]), "x");
    assert_eq!(items[0].col, 3);
}

#[test]
fn reader_unclosed_paren_gives_inner_list() {
    // what is still open at the end is the list being read
    let tree = ReaderState::default().read("(a (b");
    assert_eq!(tree.len(), 1);
    assert_eq!(atom(&tree[0]), "b");
}

#[test]
fn reader_list_column_is_where_it_opens() {
    // the column of a list is measured on the line of its opening paren
    let tree = ReaderState::default().read("漢(\nabc)");
    assert_eq!(tree.len(), 2);
    assert_eq!(atom(&tree[0]), "漢");
    assert_eq!((tree[1].row, tree[1].col), (0, 2));
    let items = children(&tree[1]);
    assert_eq!(atom(&items[0]), "abc");
    assert_eq!((items[0].row, items[0].col), (1, 0));
}

#[test]
fn reader_closes_on_a_shorter_line() {
    let tree = ReaderState::default().read("  (a\n)");
    assert_eq!(tree.len(), 1);
    assert_eq!((tree[0].row, tree[0].col), (0, 2));
    let items = children(&tree[0]);
    assert_eq!(items.len(), 1);
    assert_eq!(atom(&items[0]), "a");
    assert_eq!((items[0].row, items[0].col), (0, 3));
}

#[test]
fn try_read_reports_unmatched_close_paren() {
    assert!(ReaderState::default().try_read(")").is_none());
    assert!(ReaderState::default().try_read("(a)\n b)").is_none());
    let tree = ReaderState::default().try_read("(a)\n b").unwrap();
    assert_eq!(tree.len(), 2);
    assert_eq!(atom(&tree[1]), "b");
}

#[test]
fn whitespace_matches_std() {
    for code in 0u32..=0x10FFFF {
        if let Some(c) = char::from_u32(code) {
            assert_eq!(neoparinfer::text::char_is_whitespace(c), c.is_whitespace(), "{:?}", c);
        }
    }
}
