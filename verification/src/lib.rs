//! Reading Lisp-like text into a tree of parenthesized lists and atoms, and
//! the paren-mode and indent-mode runs of Parinfer.
pub mod parens_only;
pub mod legacy;
pub mod text;

use std::mem;
use text::{
    boundary_index, char_is_whitespace, chars_of, display_width, find_boundary, is_white_space, len_utf8,
    str_width, text_lines, utf8_len,
};
use vstd::prelude::*;

verus! {

pub type ParenTree<'src> = Vec<ParenNode<'src>>;

#[derive(Debug)]
pub struct ParenNode<'src> {
    /// the starting column of the node.
    /// indentation is important.
    pub col: usize,
    /// when a node appears on the next row,
    /// its position needs to be clamped.
    /// and later operations must be done with this clamped indentation
    pub row: usize,
    pub kind: ParenNodeKind<'src>,
}

#[derive(Debug)]
pub enum ParenNodeKind<'src> {
    Paren(Vec<ParenNode<'src>>),
    Atom(&'src str),
}

/// The abstract content of a `ParenNode`.
pub struct NodeView {
    pub col: usize,
    pub row: usize,
    pub kind: NodeKindView,
}

pub enum NodeKindView {
    Paren(Seq<NodeView>),
    Atom(Seq<char>),
}

/// The abstract content of a node, its children included.
pub open spec fn node_view(n: ParenNode) -> NodeView
    decreases n, 1int,
{
    NodeView {
        col: n.col,
        row: n.row,
        kind: match n.kind {
            ParenNodeKind::Paren(children) => NodeKindView::Paren(nodes_view(children@)),
            ParenNodeKind::Atom(s) => NodeKindView::Atom(s@),
        },
    }
}

/// The abstract content of a list of nodes.
pub open spec fn nodes_view(nodes: Seq<ParenNode>) -> Seq<NodeView>
    decreases nodes, 0int,
{
    if nodes.len() == 0 {
        Seq::empty()
    } else {
        nodes_view(nodes.drop_last()).push(node_view(nodes.last()))
    }
}

// (a b c)
// (ad (a b)\n
//     c)
// keep parens and new lines
// retain the ability to indent and dedent lines
// (a (a (a (b)
//        ccc)))
// (clamp it between two left parens, on the *last* line)
//
// actually paren and indent mode share the same tree?

/// The state of reading text into a `ParenTree`.
pub struct ReaderState<'src> {
    /// the lists of the open parens, outermost first
    stash: Vec<Vec<ParenNode<'src>>>,
    /// the list being read
    cur_node: Vec<ParenNode<'src>>,
    /// the byte offsets in their lines, the rows and the columns of the open
    /// parens and of the atom being read, innermost last
    starting_points: Vec<(usize, usize, usize)>,
    /// whether an atom is being read
    in_atom: bool,
}

/// The abstract content of a `ReaderState`.
pub struct ReaderView {
    pub stash: Seq<Seq<NodeView>>,
    pub cur_node: Seq<NodeView>,
    pub starting_points: Seq<(usize, usize, usize)>,
    pub in_atom: bool,
}

impl<'src> View for ReaderState<'src> {
    type V = ReaderView;

    closed spec fn view(&self) -> ReaderView {
        ReaderView {
            stash: self.stash@.map_values(|v: Vec<ParenNode<'src>>| nodes_view(v@)),
            cur_node: nodes_view(self.cur_node@),
            starting_points: self.starting_points@,
            in_atom: self.in_atom,
        }
    }
}

/// A reader that has read nothing.
pub open spec fn reader_start() -> ReaderView {
    ReaderView {
        stash: Seq::empty(),
        cur_node: Seq::empty(),
        starting_points: Seq::empty(),
        in_atom: false,
    }
}

impl<'src> Default for ReaderState<'src> {
    fn default() -> (r: Self)
        ensures
            r@ == reader_start(),
    {
        let r = ReaderState {
            stash: Vec::new(),
            cur_node: Vec::new(),
            starting_points: Vec::new(),
            in_atom: false,
        };
        proof {
            assert(r@.stash =~= Seq::<Seq<NodeView>>::empty());
        }
        r
    }
}

/// Ends the atom being read, if any, at byte offset `end` of `line`, or at the
/// end of `line` when `end` is `None`; `None` when a byte offset is not a
/// character boundary of `line` or the atom would end before it starts. The
/// atom keeps the row and column where it started.
pub open spec fn cut_atom_step(st: ReaderView, line: Seq<char>, end: Option<int>) -> Option<
    ReaderView,
> {
    if !st.in_atom {
        Some(st)
    } else if st.starting_points.len() == 0 {
        None
    } else {
        let (start, row, col) = st.starting_points.last();
        let ks = boundary_index(line, start as int);
        let ke = match end {
            Some(e) => boundary_index(line, e),
            None => Some(line.len() as int),
        };
        if ks is None || ke is None || ks->Some_0 > ke->Some_0 {
            None
        } else {
            Some(
                ReaderView {
                    stash: st.stash,
                    cur_node: st.cur_node.push(
                        NodeView {
                            row,
                            col,
                            kind: NodeKindView::Atom(line.subrange(ks->Some_0, ke->Some_0)),
                        },
                    ),
                    starting_points: st.starting_points.drop_last(),
                    in_atom: false,
                },
            )
        }
    }
}

/// Reads the character at index `k` of `line`, on row `row`. An opening paren
/// and the first character of an atom record their byte offset, row and column
/// (the display width of the line before them); a closing paren ends the list
/// of the innermost open paren, which keeps that paren's row and column.
pub open spec fn read_char_step(st: ReaderView, line: Seq<char>, row: usize, k: int) -> Option<
    ReaderView,
> {
    let c = line[k];
    let idx = utf8_len(line.take(k)) as usize;
    let col = display_width(line.take(k));
    if c == '(' {
        match cut_atom_step(st, line, Some(idx as int)) {
            None => None,
            Some(s) => Some(
                ReaderView {
                    stash: s.stash.push(s.cur_node),
                    cur_node: Seq::empty(),
                    starting_points: s.starting_points.push((idx, row, col)),
                    in_atom: s.in_atom,
                },
            ),
        }
    } else if c == ')' {
        match cut_atom_step(st, line, Some(idx as int)) {
            None => None,
            Some(s) => {
                if s.stash.len() == 0 || s.starting_points.len() == 0 {
                    None
                } else {
                    let (_, open_row, open_col) = s.starting_points.last();
                    Some(
                        ReaderView {
                            stash: s.stash.drop_last(),
                            cur_node: s.stash.last().push(
                                NodeView {
                                    col: open_col,
                                    row: open_row,
                                    kind: NodeKindView::Paren(s.cur_node),
                                },
                            ),
                            starting_points: s.starting_points.drop_last(),
                            in_atom: s.in_atom,
                        },
                    )
                }
            },
        }
    } else if !is_white_space(c) && !st.in_atom {
        Some(
            ReaderView {
                in_atom: true,
                starting_points: st.starting_points.push((idx, row, col)),
                ..st
            },
        )
    } else {
        Some(st)
    }
}

/// Reads the first `k` characters of `line`.
pub open spec fn read_chars(st: ReaderView, line: Seq<char>, row: usize, k: nat) -> Option<
    ReaderView,
>
    decreases k,
{
    if k == 0 {
        Some(st)
    } else {
        match read_chars(st, line, row, (k - 1) as nat) {
            None => None,
            Some(s) => read_char_step(s, line, row, k - 1),
        }
    }
}

/// Reads a line, on row `row`: its characters, then the end of its atom.
pub open spec fn read_line(st: ReaderView, line: Seq<char>, row: usize) -> Option<ReaderView> {
    match read_chars(st, line, row, line.len()) {
        None => None,
        Some(s) => cut_atom_step(s, line, None),
    }
}

/// Reads the given lines, the first on row 0.
pub open spec fn read_lines(st: ReaderView, lines: Seq<Seq<char>>) -> Option<ReaderView>
    decreases lines.len(),
{
    if lines.len() == 0 {
        Some(st)
    } else {
        match read_lines(st, lines.drop_last()) {
            None => None,
            Some(s) => read_line(s, lines.last(), (lines.len() - 1) as usize),
        }
    }
}

/// Reading `input` from `st`: `None` when the reader would fail on it.
pub open spec fn read_text(st: ReaderView, input: Seq<char>) -> Option<ReaderView> {
    read_lines(st, text_lines(input))
}

proof fn lemma_nodes_view_push(nodes: Seq<ParenNode>, n: ParenNode)
    ensures
        nodes_view(nodes.push(n)) == nodes_view(nodes).push(node_view(n)),
{
    assert(nodes.push(n).drop_last() =~= nodes);
}

proof fn lemma_read_chars_stops(st: ReaderView, line: Seq<char>, row: usize, k1: nat, k2: nat)
    requires
        k1 <= k2,
        read_chars(st, line, row, k1) is None,
    ensures
        read_chars(st, line, row, k2) is None,
    decreases k2,
{
    if k1 < k2 {
        lemma_read_chars_stops(st, line, row, k1, (k2 - 1) as nat);
    }
}

proof fn lemma_read_lines_prefix(st: ReaderView, lines: Seq<Seq<char>>, k: int)
    requires
        0 <= k <= lines.len(),
        read_lines(st, lines) is Some,
    ensures
        read_lines(st, lines.take(k)) is Some,
    decreases lines.len(),
{
    if k == lines.len() {
        assert(lines.take(k) =~= lines);
    } else {
        assert(lines.drop_last().take(k) =~= lines.take(k));
        lemma_read_lines_prefix(st, lines.drop_last(), k);
    }
}

/// The number of parens left open after `chars`, starting from `depth` open
/// ones; `None` when a closing paren closes none.
pub open spec fn open_depth(depth: nat, chars: Seq<char>) -> Option<nat>
    decreases chars.len(),
{
    if chars.len() == 0 {
        Some(depth)
    } else {
        match open_depth(depth, chars.drop_last()) {
            None => None,
            Some(d) => {
                if chars.last() == '(' {
                    Some(d + 1)
                } else if chars.last() == ')' {
                    if d == 0 {
                        None
                    } else {
                        Some((d - 1) as nat)
                    }
                } else {
                    Some(d)
                }
            },
        }
    }
}

/// The number of parens left open after the given lines, read in order;
/// `None` when a closing paren closes none.
pub open spec fn lines_open_depth(lines: Seq<Seq<char>>) -> Option<nat>
    decreases lines.len(),
{
    if lines.len() == 0 {
        Some(0)
    } else {
        match lines_open_depth(lines.drop_last()) {
            None => None,
            Some(d) => open_depth(d, lines.last()),
        }
    }
}

/// A reader started new, between two lines, with `depth` parens open.
spec fn fresh_between(st: ReaderView, depth: nat) -> bool {
    &&& st.stash.len() == depth
    &&& st.starting_points.len() == depth
    &&& !st.in_atom
}

/// A reader started new, after `k` characters of `line`, with `depth` parens
/// open: an atom being read started at a character boundary of this line.
spec fn fresh_within(st: ReaderView, depth: nat, line: Seq<char>, k: int) -> bool {
    &&& st.stash.len() == depth
    &&& st.starting_points.len() == depth + if st.in_atom {
        1nat
    } else {
        0nat
    }
    &&& st.in_atom ==> exists|j: int|
        0 <= j <= k && st.starting_points.last().0 == utf8_len(#[trigger] line.take(j))
}

proof fn lemma_read_chars_fresh(st: ReaderView, depth: nat, line: Seq<char>, row: usize, k: nat)
    requires
        fresh_between(st, depth),
        k <= line.len(),
        utf8_len(line) <= usize::MAX,
    ensures
        (read_chars(st, line, row, k) is Some) == (open_depth(depth, line.take(k as int)) is Some),
        read_chars(st, line, row, k) is Some ==> fresh_within(
            read_chars(st, line, row, k)->Some_0,
            open_depth(depth, line.take(k as int))->Some_0,
            line,
            k as int,
        ),
    decreases k,
{
    if k == 0 {
        assert(line.take(0) =~= Seq::<char>::empty());
    } else {
        let i = k - 1;
        lemma_read_chars_fresh(st, depth, line, row, i as nat);
        assert(line.take(k as int).drop_last() =~= line.take(i));
        assert(line.take(k as int).last() == line[i]);
        if read_chars(st, line, row, i as nat) is Some {
            let s = read_chars(st, line, row, i as nat)->Some_0;
            let d = open_depth(depth, line.take(i))->Some_0;
            let b = utf8_len(line.take(i));
            text::lemma_utf8_len_subrange(line, 0, i);
            assert(line.take(i) =~= line.subrange(0, i));
            text::lemma_boundary_of_prefix(line, i);
            if s.in_atom {
                let j = choose|j: int|
                    0 <= j <= i && s.starting_points.last().0 == utf8_len(#[trigger] line.take(j));
                text::lemma_boundary_of_prefix(line, j);
            }
            let c = line[i];
            if c != '(' && c != ')' && !is_white_space(c) && !s.in_atom {
                let r = read_char_step(s, line, row, i);
                assert(r->Some_0.starting_points.last().0 == utf8_len(line.take(i)));
            }
        }
    }
}

proof fn lemma_read_line_fresh(st: ReaderView, depth: nat, line: Seq<char>, row: usize)
    requires
        fresh_between(st, depth),
        utf8_len(line) <= usize::MAX,
    ensures
        (read_line(st, line, row) is Some) == (open_depth(depth, line) is Some),
        read_line(st, line, row) is Some ==> fresh_between(
            read_line(st, line, row)->Some_0,
            open_depth(depth, line)->Some_0,
        ),
{
    lemma_read_chars_fresh(st, depth, line, row, line.len());
    assert(line.take(line.len() as int) =~= line);
    if read_chars(st, line, row, line.len()) is Some {
        let s = read_chars(st, line, row, line.len())->Some_0;
        if s.in_atom {
            let j = choose|j: int|
                0 <= j <= line.len() && s.starting_points.last().0 == utf8_len(
                    #[trigger] line.take(j),
                );
            text::lemma_boundary_of_prefix(line, j);
            text::lemma_utf8_len_subrange(line, 0, j);
            assert(line.take(j) =~= line.subrange(0, j));
        }
    }
}

proof fn lemma_read_lines_fresh(lines: Seq<Seq<char>>)
    requires
        forall|i: int| 0 <= i < lines.len() ==> utf8_len(#[trigger] lines[i]) <= usize::MAX,
    ensures
        (read_lines(reader_start(), lines) is Some) == (lines_open_depth(lines) is Some),
        read_lines(reader_start(), lines) is Some ==> fresh_between(
            read_lines(reader_start(), lines)->Some_0,
            lines_open_depth(lines)->Some_0,
        ),
    decreases lines.len(),
{
    if lines.len() > 0 {
        let prefix = lines.drop_last();
        assert forall|i: int| 0 <= i < prefix.len() implies utf8_len(#[trigger] prefix[i])
            <= usize::MAX by {
            assert(prefix[i] == lines[i]);
        }
        lemma_read_lines_fresh(prefix);
        if read_lines(reader_start(), prefix) is Some {
            assert(utf8_len(lines[lines.len() - 1]) <= usize::MAX);
            lemma_read_line_fresh(
                read_lines(reader_start(), prefix)->Some_0,
                lines_open_depth(prefix)->Some_0,
                lines.last(),
                (lines.len() - 1) as usize,
            );
        }
    }
}

/// A new reader fails on a text exactly when, reading its lines in order, a
/// closing paren closes no open paren; it reads every other text.
pub proof fn lemma_read_fails_iff_unmatched(input: Seq<char>)
    requires
        utf8_len(input) <= usize::MAX,
    ensures
        (read_text(reader_start(), input) is Some) == (lines_open_depth(text_lines(input)) is Some),
{
    text::lemma_text_lines_utf8_len(input);
    lemma_read_lines_fresh(text_lines(input));
}

/// The number of list nodes among `nodes` and their descendants.
pub open spec fn list_count(nodes: Seq<NodeView>) -> nat
    decreases nodes, 0int,
{
    if nodes.len() == 0 {
        0
    } else {
        list_count(nodes.drop_last()) + node_list_count(nodes.last())
    }
}

/// The number of list nodes in a node: itself, if it is a list, and its
/// descendants.
pub open spec fn node_list_count(n: NodeView) -> nat
    decreases n, 1int,
{
    match n.kind {
        NodeKindView::Paren(children) => 1 + list_count(children),
        NodeKindView::Atom(_) => 0,
    }
}

/// The number of list nodes in the lists of the open parens.
pub open spec fn stash_list_count(stash: Seq<Seq<NodeView>>) -> nat
    decreases stash.len(),
{
    if stash.len() == 0 {
        0
    } else {
        stash_list_count(stash.drop_last()) + list_count(stash.last())
    }
}

/// The number of list nodes that a reader holds: in the list being read and in
/// those of the open parens.
pub open spec fn reader_list_count(st: ReaderView) -> nat {
    list_count(st.cur_node) + stash_list_count(st.stash)
}

/// How many times `c` occurs in `s`.
pub open spec fn char_count(s: Seq<char>, c: char) -> nat
    decreases s.len(),
{
    if s.len() == 0 {
        0
    } else {
        char_count(s.drop_last(), c) + if s.last() == c {
            1nat
        } else {
            0nat
        }
    }
}

/// How many times `c` occurs in the given lines.
pub open spec fn lines_char_count(lines: Seq<Seq<char>>, c: char) -> nat
    decreases lines.len(),
{
    if lines.len() == 0 {
        0
    } else {
        lines_char_count(lines.drop_last(), c) + char_count(lines.last(), c)
    }
}

proof fn lemma_list_count_push(nodes: Seq<NodeView>, n: NodeView)
    ensures
        list_count(nodes.push(n)) == list_count(nodes) + node_list_count(n),
{
    assert(nodes.push(n).drop_last() =~= nodes);
}

proof fn lemma_stash_list_count_push(stash: Seq<Seq<NodeView>>, nodes: Seq<NodeView>)
    ensures
        stash_list_count(stash.push(nodes)) == stash_list_count(stash) + list_count(nodes),
{
    assert(stash.push(nodes).drop_last() =~= stash);
}

proof fn lemma_cut_atom_list_count(st: ReaderView, line: Seq<char>, end: Option<int>)
    requires
        cut_atom_step(st, line, end) is Some,
    ensures
        reader_list_count(cut_atom_step(st, line, end)->Some_0) == reader_list_count(st),
{
    if st.in_atom {
        let s = cut_atom_step(st, line, end)->Some_0;
        lemma_list_count_push(st.cur_node, s.cur_node.last());
        assert(s.cur_node == st.cur_node.push(s.cur_node.last()));
    }
}

proof fn lemma_read_char_list_count(st: ReaderView, line: Seq<char>, row: usize, k: int)
    requires
        read_char_step(st, line, row, k) is Some,
    ensures
        reader_list_count(read_char_step(st, line, row, k)->Some_0) == reader_list_count(st) + if line[k]
            == ')' {
            1nat
        } else {
            0nat
        },
{
    let c = line[k];
    let idx = utf8_len(line.take(k)) as usize;
    if c == '(' || c == ')' {
        lemma_cut_atom_list_count(st, line, Some(idx as int));
        let s = cut_atom_step(st, line, Some(idx as int))->Some_0;
        let r = read_char_step(st, line, row, k)->Some_0;
        if c == '(' {
            lemma_stash_list_count_push(s.stash, s.cur_node);
            assert(list_count(Seq::<NodeView>::empty()) == 0);
        } else {
            lemma_stash_list_count_push(s.stash.drop_last(), s.stash.last());
            assert(s.stash.drop_last().push(s.stash.last()) =~= s.stash);
            lemma_list_count_push(s.stash.last(), r.cur_node.last());
            assert(r.cur_node == s.stash.last().push(r.cur_node.last()));
        }
    }
}

proof fn lemma_read_chars_list_count(st: ReaderView, line: Seq<char>, row: usize, k: nat)
    requires
        k <= line.len(),
        read_chars(st, line, row, k) is Some,
    ensures
        reader_list_count(read_chars(st, line, row, k)->Some_0) == reader_list_count(st) + char_count(
            line.take(k as int),
            ')',
        ),
    decreases k,
{
    if k == 0 {
        assert(line.take(0) =~= Seq::<char>::empty());
    } else {
        let i = k - 1;
        lemma_read_chars_list_count(st, line, row, i as nat);
        let s = read_chars(st, line, row, i as nat)->Some_0;
        lemma_read_char_list_count(s, line, row, i);
        assert(line.take(k as int).drop_last() =~= line.take(i));
        assert(line.take(k as int).last() == line[i]);
    }
}

proof fn lemma_read_lines_list_count(st: ReaderView, lines: Seq<Seq<char>>)
    requires
        read_lines(st, lines) is Some,
    ensures
        reader_list_count(read_lines(st, lines)->Some_0) == reader_list_count(st) + lines_char_count(
            lines,
            ')',
        ),
    decreases lines.len(),
{
    if lines.len() > 0 {
        let line = lines.last();
        let row = (lines.len() - 1) as usize;
        lemma_read_lines_list_count(st, lines.drop_last());
        let s = read_lines(st, lines.drop_last())->Some_0;
        lemma_read_chars_list_count(s, line, row, line.len());
        assert(line.take(line.len() as int) =~= line);
        lemma_cut_atom_list_count(read_chars(s, line, row, line.len())->Some_0, line, None);
    }
}

/// Each closing paren that a reader reads closes a list and adds exactly one
/// list node to the list around it, empty lists included: a new reader that
/// reads a text holds, in its tree and in its open lists, exactly as many list
/// nodes as the text has closing parens. Where the text closes every paren it
/// opens, no list is left open and the tree alone holds them.
pub proof fn lemma_read_list_count(input: Seq<char>)
    requires
        read_text(reader_start(), input) is Some,
    ensures
        reader_list_count(read_text(reader_start(), input)->Some_0) == lines_char_count(
            text_lines(input),
            ')',
        ),
        utf8_len(input) <= usize::MAX && lines_open_depth(text_lines(input)) == Some(0nat) ==> {
            &&& read_text(reader_start(), input)->Some_0.stash.len() == 0
            &&& list_count(read_text(reader_start(), input)->Some_0.cur_node) == lines_char_count(
                text_lines(input),
                ')',
            )
        },
{
    lemma_read_lines_list_count(reader_start(), text_lines(input));
    assert(list_count(Seq::<NodeView>::empty()) == 0);
    assert(stash_list_count(Seq::<Seq<NodeView>>::empty()) == 0);
    if utf8_len(input) <= usize::MAX && lines_open_depth(text_lines(input)) == Some(0nat) {
        text::lemma_text_lines_utf8_len(input);
        lemma_read_lines_fresh(text_lines(input));
        let s = read_text(reader_start(), input)->Some_0;
        assert(s.stash =~= Seq::<Seq<NodeView>>::empty());
    }
}

/// The line that starts at `pos` of `input` and runs to `le`, before the
/// line feed at `e` or the end, is the next of `text_lines(input)` after the
/// lines `done`.
proof fn lemma_next_line(
    done: Seq<Seq<char>>,
    input: Seq<char>,
    pos: int,
    e: int,
    le: int,
    line: Seq<char>,
)
    requires
        0 <= pos < input.len(),
        pos <= e <= input.len(),
        forall|i: int| pos <= i < e ==> input[i] != '\n',
        e < input.len() ==> input[e] == '\n',
        le == if e < input.len() && e > pos && input[e - 1] == '\r' {
            e - 1
        } else {
            e
        },
        line == input.subrange(pos, le),
        done + text_lines(input.skip(pos)) == text_lines(input),
    ensures
        done.push(line) + text_lines(
            input.skip(
                if e < input.len() {
                    e + 1
                } else {
                    input.len() as int
                },
            ),
        ) == text_lines(input),
        text_lines(input).take(done.len() as int + 1) == done.push(line),
        done.push(line).drop_last() == done,
        utf8_len(line) <= utf8_len(input),
{
    text::lemma_text_lines_step(input, pos, e, le);
    let rest = input.skip(
        if e < input.len() {
            e + 1
        } else {
            input.len() as int
        },
    );
    assert(done.push(line) + text_lines(rest) =~= done + text_lines(input.skip(pos)));
    assert(text_lines(input).take(done.len() as int + 1) =~= done.push(line));
    assert(done.push(line).drop_last() =~= done);
    text::lemma_utf8_len_subrange(input, pos, le);
}

impl<'src> ReaderState<'src> {
    fn cut_atom(
        &mut self,
        line: &'src str,
        chars: &Vec<char>,
        from: usize,
        to: usize,
        idx: Option<usize>,
    ) -> (ok: bool)
        requires
            from <= to <= chars.len(),
            line@ == chars@.subrange(from as int, to as int),
        ensures
            match cut_atom_step(
                old(self)@,
                line@,
                match idx {
                    Some(e) => Some(e as int),
                    None => None,
                },
            ) {
                Some(st) => ok && final(self)@ == st,
                None => !ok,
            },
    {
        if self.in_atom {
            let (start, row, col) = match self.starting_points.pop() {
                Some(p) => p,
                None => {
                    return false;
                },
            };
            let ks = match find_boundary(chars, from, to, start) {
                Some(k) => k,
                None => {
                    return false;
                },
            };
            let ke = match idx {
                Some(end) => match find_boundary(chars, from, to, end) {
                    Some(k) => k,
                    None => {
                        return false;
                    },
                },
                None => to - from,
            };
            if ks > ke {
                return false;
            }
            let atom = line.substring_char(ks, ke);
            let node = ParenNode { row, col, kind: ParenNodeKind::Atom(atom) };
            proof {
                lemma_nodes_view_push(self.cur_node@, node);
            }
            self.cur_node.push(node);
            self.in_atom = false;
        }
        true
    }

    fn read_char(
        &mut self,
        line: &'src str,
        chars: &Vec<char>,
        from: usize,
        to: usize,
        row: usize,
        k: usize,
        idx: usize,
    ) -> (ok: bool)
        requires
            from <= to <= chars.len(),
            k < to - from,
            line@ == chars@.subrange(from as int, to as int),
            idx == utf8_len(line@.take(k as int)),
        ensures
            match read_char_step(old(self)@, line@, row, k as int) {
                Some(st) => ok && final(self)@ == st,
                None => !ok,
            },
    {
        let c = chars[from + k];
        assert(line@[k as int] == c);
        if c == '(' {
            if !self.cut_atom(line, chars, from, to, Some(idx)) {
                return false;
            }
            let ghost s = self@;
            let col = str_width(line.substring_char(0, k));
            self.starting_points.push((idx, row, col));
            let mut inner: Vec<ParenNode<'src>> = Vec::new();
            mem::swap(&mut inner, &mut self.cur_node);
            let ghost prev = self.stash@;
            self.stash.push(inner);
            proof {
                assert(self.stash@.map_values(|v: Vec<ParenNode<'src>>| nodes_view(v@))
                    =~= prev.map_values(|v: Vec<ParenNode<'src>>| nodes_view(v@)).push(
                    s.cur_node,
                ));
                assert(nodes_view(self.cur_node@) =~= Seq::<NodeView>::empty());
            }
        } else if c == ')' {
            if !self.cut_atom(line, chars, from, to, Some(idx)) {
                return false;
            }
            let ghost s = self@;
            let ghost prev = self.stash@;
            let mut inner = match self.stash.pop() {
                Some(v) => v,
                None => {
                    return false;
                },
            };
            proof {
                assert(self.stash@.map_values(|v: Vec<ParenNode<'src>>| nodes_view(v@))
                    =~= prev.map_values(|v: Vec<ParenNode<'src>>| nodes_view(v@)).drop_last());
                assert(nodes_view(inner@) == s.stash.last());
            }
            mem::swap(&mut inner, &mut self.cur_node);
            let (_, open_row, open_col) = match self.starting_points.pop() {
                Some(p) => p,
                None => {
                    return false;
                },
            };
            let node = ParenNode { col: open_col, row: open_row, kind: ParenNodeKind::Paren(inner) };
            proof {
                lemma_nodes_view_push(self.cur_node@, node);
            }
            self.cur_node.push(node);
        } else {
            if !char_is_whitespace(c) && !self.in_atom {
                let col = str_width(line.substring_char(0, k));
                self.in_atom = true;
                self.starting_points.push((idx, row, col));
            }
        }
        true
    }

    fn read_line(&mut self, line: &'src str, chars: &Vec<char>, from: usize, to: usize, row: usize) -> (ok: bool)
        requires
            from <= to <= chars.len(),
            line@ == chars@.subrange(from as int, to as int),
            utf8_len(line@) <= usize::MAX,
        ensures
            match read_line(old(self)@, line@, row) {
                Some(st) => ok && final(self)@ == st,
                None => !ok,
            },
    {
        let ghost st0 = self@;
        let mut k: usize = 0;
        let mut idx: usize = 0;
        assert(line@.take(0) =~= Seq::<char>::empty());
        while from + k < to
            invariant
                from <= to <= chars.len(),
                line@ == chars@.subrange(from as int, to as int),
                utf8_len(line@) <= usize::MAX,
                k <= to - from,
                st0 == old(self)@,
                idx == utf8_len(line@.take(k as int)),
                read_chars(st0, line@, row, k as nat) == Some(self@),
            decreases to - from - k,
        {
            let c = chars[from + k];
            proof {
                assert(line@[k as int] == c);
                text::lemma_utf8_len_subrange(line@, k as int, k + 1);
                text::lemma_utf8_len_subrange(line@, 0, k + 1);
                assert(line@.subrange(k as int, k + 1) =~= seq![c]);
                assert(utf8_len(line@.take(k + 1)) <= utf8_len(line@)) by {
                    assert(line@.take(k + 1) =~= line@.subrange(0, k + 1));
                }
                assert(utf8_len(seq![c]) == text::char_utf8_len(c)) by {
                    assert(seq![c][0] == c);
                    assert(seq![c].drop_first() =~= Seq::<char>::empty());
                    reveal_with_fuel(utf8_len, 2);
                }
            }
            if !self.read_char(line, chars, from, to, row, k, idx) {
                proof {
                    assert(read_chars(st0, line@, row, (k + 1) as nat) is None);
                    lemma_read_chars_stops(st0, line@, row, (k + 1) as nat, line@.len());
                    assert(read_line(st0, line@, row) is None);
                }
                return false;
            }
            idx = idx + len_utf8(c);
            k += 1;
        }
        proof {
            assert(k as int == line@.len());
        }
        self.cut_atom(line, chars, from, to, None)
    }

    /// Reads `input` line by line into lists and atoms, like `read`; `None`
    /// exactly when `read` would fail on it, or when its UTF-8 bytes would
    /// not fit in memory.
    pub fn try_read(self, input: &'src str) -> (tree: Option<ParenTree<'src>>)
        ensures
            match tree {
                Some(t) => {
                    &&& utf8_len(input@) <= usize::MAX
                    &&& read_text(self@, input@) is Some
                    &&& nodes_view(t@) == read_text(self@, input@)->Some_0.cur_node
                },
                None => utf8_len(input@) > usize::MAX || read_text(self@, input@) is None,
            },
    {
        let ghost st0 = self@;
        let mut reader = self;
        let chars = chars_of(input);
        if text::utf8_len_checked(&chars).is_none() {
            return None;
        }
        let n = chars.len();
        let mut pos: usize = 0;
        let mut row: usize = 0;
        let ghost mut done: Seq<Seq<char>> = Seq::empty();
        assert(input@.skip(0) =~= input@);
        assert(done + text_lines(input@) =~= text_lines(input@));
        while pos < n
            invariant
                chars@ == input@,
                n == chars@.len(),
                pos <= n,
                row == done.len(),
                row <= pos,
                done + text_lines(input@.skip(pos as int)) == text_lines(input@),
                read_lines(st0, done) == Some(reader@),
                st0 == self@,
                utf8_len(input@) <= usize::MAX,
            decreases n - pos,
        {
            let mut e = pos;
            while e < n && chars[e] != '\n'
                invariant
                    chars@ == input@,
                    n == chars@.len(),
                    pos <= e <= n,
                    forall|i: int| pos <= i < e ==> chars@[i] != '\n',
                decreases n - e,
            {
                e += 1;
            }
            let le = if e < n && e > pos && chars[e - 1] == '\r' {
                e - 1
            } else {
                e
            };
            let line = input.substring_char(pos, le);
            let ghost rest = input@.skip(
                if e < n {
                    e + 1
                } else {
                    n as int
                },
            );
            proof {
                lemma_next_line(done, input@, pos as int, e as int, le as int, line@);
            }
            let ghost before = reader@;
            if !reader.read_line(line, &chars, pos, le, row) {
                proof {
                    assert(read_lines(st0, done.push(line@)) == read_line(before, line@, row));
                    assert(read_line(before, line@, row) is None);
                    if read_lines(st0, text_lines(input@)) is Some {
                        lemma_read_lines_prefix(st0, text_lines(input@), done.len() as int + 1);
                        assert(false);
                    }
                    assert(read_text(st0, input@) is None);
                }
                return None;
            }
            proof {
                assert(read_lines(st0, done.push(line@)) == read_line(before, line@, row));
                done = done.push(line@);
            }
            pos = if e < n {
                e + 1
            } else {
                n
            };
            row += 1;
        }
        proof {
            assert(input@.skip(n as int) =~= Seq::<char>::empty());
            assert(done + Seq::<Seq<char>>::empty() =~= done);
        }
        Some(reader.cur_node)
    }

    /// Reads `input` line by line into lists and atoms. An atom runs from a
    /// character that is not white space to the next paren or the end of its
    /// line; a list runs from an opening paren to its closing paren. Each
    /// node has the row and the column where it starts: the column is the
    /// display width of its line before it. Returns the list being read at
    /// the end: the top level when every paren is closed.
    ///
    /// From a new reader, reading fails exactly when a closing paren closes
    /// no open paren (see `lemma_read_fails_iff_unmatched`); such input is
    /// left out here, and `try_read` takes every input.
    pub fn read(self, input: &'src str) -> (tree: ParenTree<'src>)
        requires
            utf8_len(input@) <= usize::MAX,
            read_text(self@, input@) is Some,
        ensures
            nodes_view(tree@) == read_text(self@, input@)->Some_0.cur_node,
    {
        self.try_read(input).unwrap()
    }
}

} // verus!
