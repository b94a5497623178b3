//! Paren mode and indent mode over lines reduced to their indentation and
//! their parentheses.
use std::collections::HashMap;
use std::collections::VecDeque;
use vstd::prelude::*;

verus! {

broadcast use vstd::std_specs::hash::group_hash_axioms;

/// Why a run could not finish.
#[derive(Debug)]
pub enum Error {
    /// A closing paren has no opening paren, or one of another kind.
    Unbalanced,
}

/// A column on a line.
pub type Column = usize;

/// A change of indentation.
pub type Delta = isize;

/// One line of text: its indentation and its parentheses, left to right.
#[derive(Clone, Debug)]
pub struct Line {
    pub parens: Vec<Paren>,
    pub indent: Column,
}

/// A parenthesis on a line.
#[derive(Clone, Copy, Debug)]
pub struct Paren {
    pub col: Column,
    pub kind: char,
    pub side: Side,
    /// whether anything but parens follows it on its line
    pub mid_line: bool,
}

#[derive(Clone, Copy, Debug)]
pub enum Side {
    Opening,
    Closing,
}

/// The abstract content of a `Line`.
pub struct LineView {
    pub parens: Seq<Paren>,
    pub indent: Column,
}

impl View for Line {
    type V = LineView;

    open spec fn view(&self) -> LineView {
        LineView { parens: self.parens@, indent: self.indent }
    }
}

/// The lines of a slice of `Line`, by their views.
pub open spec fn lines_view(input: Seq<Line>) -> Seq<LineView> {
    input.map_values(|l: Line| l@)
}

/// An opening paren that is still open during a paren-mode run, as moved by
/// the indentation change of its line, with that change.
#[derive(Debug)]
pub struct Context {
    pub opening: Paren,
    pub delta: Delta,
}

/// `x + d`, held to the range of `usize`.
pub open spec fn sat_add_signed(x: usize, d: isize) -> usize {
    let s = x + d;
    if s < 0 {
        0
    } else if s > usize::MAX {
        usize::MAX
    } else {
        s as usize
    }
}

/// `x` held between `lo` and `hi`.
pub open spec fn clamp(x: usize, lo: usize, hi: usize) -> usize {
    if x < lo {
        lo
    } else if x > hi {
        hi
    } else {
        x
    }
}

fn saturating_add_signed(x: usize, d: isize) -> (r: usize)
    ensures
        r == sat_add_signed(x, d),
{
    if d >= 0 {
        let u = d as usize;
        if x > usize::MAX - u {
            usize::MAX
        } else {
            x + u
        }
    } else {
        let u = (-(d + 1)) as usize + 1;
        if x < u {
            0
        } else {
            x - u
        }
    }
}

// ---------------------------------------------------------------------------
// Paren mode
// ---------------------------------------------------------------------------

/// The state of a paren-mode run between two lines.
pub struct ParenRunState {
    /// the column that the next line may not be indented past
    pub max_indent: Column,
    /// the parens still open, innermost last
    pub context: Seq<Context>,
    /// the indentation changes so far, by row
    pub changes: Map<usize, Delta>,
}

/// Where a paren-mode run stands.
pub enum ParenRun {
    Running(ParenRunState),
    Unbalanced,
    /// an arithmetic step of the run leaves its type
    Overflow,
}

pub open spec fn paren_run_start() -> ParenRunState {
    ParenRunState { max_indent: usize::MAX, context: Seq::empty(), changes: Map::empty() }
}

/// The indentation change that the enclosing open paren passes on.
pub open spec fn enclosing_delta(context: Seq<Context>) -> Delta {
    if context.len() == 0 {
        0
    } else {
        context.last().delta
    }
}

/// The least indentation a line may have: one past its enclosing open paren.
pub open spec fn min_indent(context: Seq<Context>) -> int {
    if context.len() == 0 {
        0
    } else {
        context.last().opening.col + 1
    }
}

/// The indentation that paren mode gives a line.
pub open spec fn clamped_indent(st: ParenRunState, line: LineView) -> usize {
    let min = min_indent(st.context) as usize;
    let max = if st.max_indent >= min {
        st.max_indent
    } else {
        min
    };
    clamp(sat_add_signed(line.indent, enclosing_delta(st.context)), min, max)
}

/// The change of indentation of a line, as computed in `isize`.
pub open spec fn raw_delta(st: ParenRunState, line: LineView) -> int {
    (clamped_indent(st, line) as isize) - (line.indent as isize)
}

/// The arithmetic for a line stays within its types.
pub open spec fn line_in_range(st: ParenRunState, line: LineView) -> bool {
    &&& min_indent(st.context) <= usize::MAX
    &&& isize::MIN <= raw_delta(st, line) <= isize::MAX
}

/// What one paren does to the open parens and the indentation limit.
pub open spec fn paren_step(context: Seq<Context>, max_indent: Column, p: Paren, delta: Delta) -> Option<
    (Seq<Context>, Column),
> {
    match p.side {
        Side::Opening => Some(
            (
                context.push(
                    Context {
                        opening: Paren {
                            col: sat_add_signed(p.col, delta),
                            kind: p.kind,
                            side: p.side,
                            mid_line: p.mid_line,
                        },
                        delta,
                    },
                ),
                usize::MAX,
            ),
        ),
        Side::Closing => {
            if context.len() == 0 || context.last().opening.kind != p.kind {
                None
            } else if !p.mid_line {
                Some((context.drop_last(), context.last().opening.col))
            } else {
                Some((context.drop_last(), usize::MAX))
            }
        },
    }
}

/// The parens of a line, taken left to right.
pub open spec fn parens_fold(
    context: Seq<Context>,
    max_indent: Column,
    parens: Seq<Paren>,
    delta: Delta,
) -> Option<(Seq<Context>, Column)>
    decreases parens.len(),
{
    if parens.len() == 0 {
        Some((context, max_indent))
    } else {
        match parens_fold(context, max_indent, parens.drop_last(), delta) {
            None => None,
            Some((c, m)) => paren_step(c, m, parens.last(), delta),
        }
    }
}

/// One line of a paren-mode run, at the given row.
pub open spec fn paren_line_step(st: ParenRunState, row: int, line: LineView) -> ParenRun {
    if !line_in_range(st, line) {
        ParenRun::Overflow
    } else {
        let d = raw_delta(st, line) as isize;
        let changes = if d != 0 {
            st.changes.insert(row as usize, d)
        } else {
            st.changes
        };
        match parens_fold(st.context, st.max_indent, line.parens, d) {
            None => ParenRun::Unbalanced,
            Some((c, m)) => ParenRun::Running(
                ParenRunState { max_indent: m, context: c, changes },
            ),
        }
    }
}

/// A paren-mode run over the given lines.
pub open spec fn paren_fold(lines: Seq<LineView>) -> ParenRun
    decreases lines.len(),
{
    if lines.len() == 0 {
        ParenRun::Running(paren_run_start())
    } else {
        match paren_fold(lines.drop_last()) {
            ParenRun::Running(st) => paren_line_step(st, lines.len() - 1, lines.last()),
            other => other,
        }
    }
}

/// Once a run has stopped, later lines change nothing.
proof fn lemma_paren_fold_stops(lines: Seq<LineView>, k: int)
    requires
        0 <= k <= lines.len(),
        !(paren_fold(lines.take(k)) is Running),
    ensures
        paren_fold(lines) == paren_fold(lines.take(k)),
    decreases lines.len(),
{
    if k == lines.len() {
        assert(lines.take(k) =~= lines);
    } else {
        assert(lines.drop_last().take(k) =~= lines.take(k));
        lemma_paren_fold_stops(lines.drop_last(), k);
    }
}

/// A run changes only rows it has passed, and records no zero change.
proof fn lemma_paren_changes_rows(lines: Seq<LineView>, st: ParenRunState)
    requires
        paren_fold(lines) == ParenRun::Running(st),
    ensures
        forall|row: usize| #[trigger]
            st.changes.contains_key(row) ==> row < lines.len() && st.changes[row] != 0,
    decreases lines.len(),
{
    if lines.len() > 0 {
        if let ParenRun::Running(prev) = paren_fold(lines.drop_last()) {
            lemma_paren_changes_rows(lines.drop_last(), prev);
        }
    }
}

/// A "parentheses" run to fix indentation based on parens.
/// An implementation of "paren mode" in Parinfer.
///
/// Each line is moved by the change of its enclosing open paren and then held
/// right of that paren and, after a line that ends by closing a paren, left of
/// the closed paren's opening; the map holds the nonzero changes by row.
/// Input on which a step of the run overflows its integer type is left out;
/// `paren_run_checked` takes every input.
pub fn paren_run(input: &[Line]) -> (res: Result<HashMap<usize, Delta>, Error>)
    requires
        !(paren_fold(lines_view(input@)) is Overflow),
    ensures
        match paren_fold(lines_view(input@)) {
            ParenRun::Running(st) => res matches Ok(m) && m@ == st.changes,
            _ => res matches Err(Error::Unbalanced),
        },
        res matches Ok(m) ==> forall|row: usize| #[trigger]
            m@.contains_key(row) ==> row < input.len() && m@[row] != 0,
{
    paren_run_checked(input).unwrap()
}

/// `paren_run`, or `None` when a step of the run overflows its integer type.
pub fn paren_run_checked(input: &[Line]) -> (res: Option<Result<HashMap<usize, Delta>, Error>>)
    ensures
        match paren_fold(lines_view(input@)) {
            ParenRun::Running(st) => res matches Some(Ok(m)) && m@ == st.changes,
            ParenRun::Unbalanced => res matches Some(Err(Error::Unbalanced)),
            ParenRun::Overflow => res is None,
        },
        res matches Some(Ok(m)) ==> forall|row: usize| #[trigger]
            m@.contains_key(row) ==> row < input.len() && m@[row] != 0,
{
    let ghost lines = lines_view(input@);
    let mut changes: HashMap<usize, Delta> = HashMap::new();
    let mut max_indent: Column = usize::MAX;
    let mut context: Vec<Context> = Vec::new();
    let mut row: usize = 0;
    while row < input.len()
        invariant
            lines == lines_view(input@),
            row <= input.len(),
            paren_fold(lines.take(row as int)) == ParenRun::Running(
                ParenRunState { max_indent, context: context@, changes: changes@ },
            ),
        decreases input.len() - row,
    {
        let ghost st = ParenRunState { max_indent, context: context@, changes: changes@ };
        let line = &input[row];
        proof {
            assert(lines.take(row + 1).drop_last() =~= lines.take(row as int));
            assert(lines.take(row + 1).last() == line@);
        }
        let cur_delta: Delta = if context.len() == 0 {
            0
        } else {
            context[context.len() - 1].delta
        };
        let orig_indent = line.indent;
        // propagates previous indentation changes to current line
        let cur_indent = saturating_add_signed(orig_indent, cur_delta);
        // calculate delta
        let min: Column = if context.len() == 0 {
            0
        } else {
            match context[context.len() - 1].opening.col.checked_add(1) {
                Some(m) => m,
                None => {
                    proof {
                        lemma_paren_fold_stops(lines, row + 1);
                    }
                    return None;
                },
            }
        };
        // the case where first_sibling is clamped
        let max: Column = if max_indent >= min {
            max_indent
        } else {
            min
        };
        let clamped: Column = if cur_indent < min {
            min
        } else if cur_indent > max {
            max
        } else {
            cur_indent
        };
        let delta: Delta = match (clamped as Delta).checked_sub(orig_indent as Delta) {
            Some(d) => d,
            None => {
                proof {
                    lemma_paren_fold_stops(lines, row + 1);
                }
                return None;
            },
        };
        assert(delta == raw_delta(st, line@));
        if delta != 0 {
            changes.insert(row, delta);
        }
        let ghost ctx0 = context@;
        let ghost mi0 = max_indent;
        // maintain stacks
        let mut i: usize = 0;
        while i < line.parens.len()
            invariant
                lines == lines_view(input@),
                row < input.len(),
                lines.len() == input.len(),
                line@ == lines[row as int],
                st.context == ctx0,
                st.max_indent == mi0,
                paren_fold(lines.take(row as int)) == ParenRun::Running(st),
                line_in_range(st, line@),
                delta == raw_delta(st, line@),
                changes@ == (if delta != 0 {
                    st.changes.insert(row, delta)
                } else {
                    st.changes
                }),
                i <= line.parens.len(),
                parens_fold(ctx0, mi0, line.parens@.take(i as int), delta) == Some(
                    (context@, max_indent),
                ),
            decreases line.parens.len() - i,
        {
            let par = line.parens[i];
            proof {
                assert(line.parens@.take(i + 1).drop_last() =~= line.parens@.take(i as int));
                assert(line.parens@.take(i + 1).last() == par);
            }
            match par.side {
                Side::Opening => {
                    let opening = Paren {
                        col: saturating_add_signed(par.col, delta),
                        kind: par.kind,
                        side: par.side,
                        mid_line: par.mid_line,
                    };
                    context.push(Context { opening, delta });
                    max_indent = usize::MAX;
                },
                Side::Closing => {
                    let popped = context.pop();
                    match popped {
                        None => {
                            proof {
                                lemma_parens_fold_stops(ctx0, mi0, line.parens@, delta, i + 1);
                                assert(lines.take(row + 1).drop_last() =~= lines.take(row as int));
                                lemma_paren_fold_stops(lines, row + 1);
                            }
                            return Some(Err(Error::Unbalanced));
                        },
                        Some(cur_layer) => {
                            // pairing usually doesn't work like that
                            if cur_layer.opening.kind != par.kind {
                                proof {
                                    lemma_parens_fold_stops(ctx0, mi0, line.parens@, delta, i + 1);
                                    assert(lines.take(row + 1).drop_last() =~= lines.take(row as int));
                                    lemma_paren_fold_stops(lines, row + 1);
                                }
                                return Some(Err(Error::Unbalanced));
                            }
                            if !par.mid_line {
                                max_indent = cur_layer.opening.col;
                            } else {
                                max_indent = usize::MAX;
                            }
                        },
                    }
                },
            }
            i += 1;
        }
        proof {
            assert(line.parens@.take(line.parens.len() as int) =~= line.parens@);
        }
        row += 1;
    }
    proof {
        assert(lines.take(input.len() as int) =~= lines);
        let st = ParenRunState { max_indent, context: context@, changes: changes@ };
        assert(paren_fold(lines) == ParenRun::Running(st));
        lemma_paren_changes_rows(lines, st);
        assert(lines.len() == input@.len());
        assert forall|row: usize| #[trigger] changes@.contains_key(row) implies row < input.len()
            && changes@[row] != 0 by {
            assert(st.changes.contains_key(row));
        }
    }
    Some(Ok(changes))
}

/// Once the parens of a line have failed, later parens change nothing.
proof fn lemma_parens_fold_stops(
    context: Seq<Context>,
    max_indent: Column,
    parens: Seq<Paren>,
    delta: Delta,
    k: int,
)
    requires
        0 <= k <= parens.len(),
        parens_fold(context, max_indent, parens.take(k), delta) is None,
    ensures
        parens_fold(context, max_indent, parens, delta) is None,
    decreases parens.len(),
{
    if k == parens.len() {
        assert(parens.take(k) =~= parens);
    } else {
        assert(parens.drop_last().take(k) =~= parens.take(k));
        lemma_parens_fold_stops(context, max_indent, parens.drop_last(), delta, k);
    }
}

/// The parens of all lines, line after line.
pub open spec fn all_parens(lines: Seq<LineView>) -> Seq<Paren>
    decreases lines.len(),
{
    if lines.len() == 0 {
        Seq::empty()
    } else {
        all_parens(lines.drop_last()) + lines.last().parens
    }
}

/// The kinds of the parens left open after `parens`, innermost last, starting
/// from those of `stack`; `None` when a closing paren does not close an open
/// paren of its kind.
pub open spec fn open_kinds(stack: Seq<char>, parens: Seq<Paren>) -> Option<Seq<char>>
    decreases parens.len(),
{
    if parens.len() == 0 {
        Some(stack)
    } else {
        match open_kinds(stack, parens.drop_last()) {
            None => None,
            Some(s) => match parens.last().side {
                Side::Opening => Some(s.push(parens.last().kind)),
                Side::Closing => {
                    if s.len() > 0 && s.last() == parens.last().kind {
                        Some(s.drop_last())
                    } else {
                        None
                    }
                },
            },
        }
    }
}

/// The kinds of the open parens of a run.
pub open spec fn context_kinds(context: Seq<Context>) -> Seq<char> {
    context.map_values(|c: Context| c.opening.kind)
}

proof fn lemma_open_kinds_concat(stack: Seq<char>, a: Seq<Paren>, b: Seq<Paren>)
    ensures
        open_kinds(stack, a + b) == match open_kinds(stack, a) {
            None => None,
            Some(t) => open_kinds(t, b),
        },
    decreases b.len(),
{
    if b.len() == 0 {
        assert(a + b =~= a);
    } else {
        assert((a + b).drop_last() =~= a + b.drop_last());
        assert((a + b).last() == b.last());
        lemma_open_kinds_concat(stack, a, b.drop_last());
    }
}

proof fn lemma_parens_fold_kinds(
    context: Seq<Context>,
    max_indent: Column,
    parens: Seq<Paren>,
    delta: Delta,
)
    ensures
        match parens_fold(context, max_indent, parens, delta) {
            None => open_kinds(context_kinds(context), parens) is None,
            Some((c, m)) => open_kinds(context_kinds(context), parens) == Some(context_kinds(c)),
        },
    decreases parens.len(),
{
    if parens.len() > 0 {
        lemma_parens_fold_kinds(context, max_indent, parens.drop_last(), delta);
        if let Some((c, m)) = parens_fold(context, max_indent, parens.drop_last(), delta) {
            let p = parens.last();
            match p.side {
                Side::Opening => {
                    let o = Paren {
                        col: sat_add_signed(p.col, delta),
                        kind: p.kind,
                        side: p.side,
                        mid_line: p.mid_line,
                    };
                    assert(context_kinds(c.push(Context { opening: o, delta })) =~= context_kinds(
                        c,
                    ).push(p.kind));
                },
                Side::Closing => {
                    if c.len() > 0 {
                        assert(context_kinds(c.drop_last()) =~= context_kinds(c).drop_last());
                    }
                },
            }
        }
    }
}

/// Paren mode fails exactly when some closing paren, read in order over all
/// lines, does not close an open paren of its kind; indentation plays no part.
pub proof fn lemma_paren_run_fails_iff_unmatched(lines: Seq<LineView>)
    requires
        !(paren_fold(lines) is Overflow),
    ensures
        (paren_fold(lines) is Unbalanced) <==> open_kinds(Seq::empty(), all_parens(lines)) is None,
{
    lemma_paren_fold_kinds_lines(lines);
}

proof fn lemma_paren_fold_kinds_lines(lines: Seq<LineView>)
    requires
        !(paren_fold(lines) is Overflow),
    ensures
        match paren_fold(lines) {
            ParenRun::Running(st) => open_kinds(Seq::empty(), all_parens(lines)) == Some(
                context_kinds(st.context),
            ),
            _ => open_kinds(Seq::empty(), all_parens(lines)) is None,
        },
    decreases lines.len(),
{
    if lines.len() == 0 {
        assert(context_kinds(Seq::<Context>::empty()) =~= Seq::<char>::empty());
    } else {
        let prefix = lines.drop_last();
        if !(paren_fold(prefix) is Running) {
            assert(prefix =~= lines.take(lines.len() - 1));
            lemma_paren_fold_stops(lines, lines.len() - 1);
        }
        lemma_paren_fold_kinds_lines(prefix);
        lemma_open_kinds_concat(Seq::empty(), all_parens(prefix), lines.last().parens);
        if let ParenRun::Running(st) = paren_fold(prefix) {
            let line = lines.last();
            if line_in_range(st, line) {
                lemma_parens_fold_kinds(
                    st.context,
                    st.max_indent,
                    line.parens,
                    raw_delta(st, line) as isize,
                );
            }
        }
    }
}

/// The change that a map of changes gives a row: none when it has no entry.
pub open spec fn change_at(changes: Map<usize, Delta>, row: int) -> Delta {
    if changes.contains_key(row as usize) {
        changes[row as usize]
    } else {
        0
    }
}

/// A paren moved along with its line.
pub open spec fn shift_paren(p: Paren, d: Delta) -> Paren {
    Paren { col: sat_add_signed(p.col, d), kind: p.kind, side: p.side, mid_line: p.mid_line }
}

/// A line with its indentation changed by `d`, its parens moved along.
pub open spec fn shift_line(line: LineView, d: Delta) -> LineView {
    LineView {
        parens: line.parens.map_values(|p: Paren| shift_paren(p, d)),
        indent: sat_add_signed(line.indent, d),
    }
}

/// The lines after the indentation changes of a paren-mode run.
pub open spec fn apply_indent_changes(lines: Seq<LineView>, changes: Map<usize, Delta>) -> Seq<
    LineView,
> {
    Seq::new(lines.len(), |i: int| shift_line(lines[i], change_at(changes, i)))
}

/// Each line's indentation, before and after the run, fits in `isize`, so
/// that each change is the plain difference of the two.
pub open spec fn paren_run_exact(lines: Seq<LineView>) -> bool
    decreases lines.len(),
{
    lines.len() == 0 || {
        &&& paren_run_exact(lines.drop_last())
        &&& match paren_fold(lines.drop_last()) {
            ParenRun::Running(st) => {
                &&& lines.last().indent <= isize::MAX
                &&& clamped_indent(st, lines.last()) <= isize::MAX
            },
            _ => true,
        }
    }
}

/// The open parens of a run over lines that need no change.
pub open spec fn settled_context(context: Seq<Context>) -> Seq<Context> {
    context.map_values(|c: Context| Context { opening: c.opening, delta: 0 })
}

proof fn lemma_parens_fold_shifted(
    context: Seq<Context>,
    max_indent: Column,
    parens: Seq<Paren>,
    delta: Delta,
)
    ensures
        parens_fold(
            settled_context(context),
            max_indent,
            parens.map_values(|p: Paren| shift_paren(p, delta)),
            0,
        ) == match parens_fold(context, max_indent, parens, delta) {
            None => None,
            Some((c, m)) => Some((settled_context(c), m)),
        },
    decreases parens.len(),
{
    let shifted = parens.map_values(|p: Paren| shift_paren(p, delta));
    if parens.len() > 0 {
        assert(shifted.drop_last() =~= parens.drop_last().map_values(
            |p: Paren| shift_paren(p, delta),
        ));
        lemma_parens_fold_shifted(context, max_indent, parens.drop_last(), delta);
        if let Some((c, m)) = parens_fold(context, max_indent, parens.drop_last(), delta) {
            let p = parens.last();
            assert(shifted.last() == shift_paren(p, delta));
            match p.side {
                Side::Opening => {
                    let o = Paren {
                        col: sat_add_signed(p.col, delta),
                        kind: p.kind,
                        side: p.side,
                        mid_line: p.mid_line,
                    };
                    assert(settled_context(c.push(Context { opening: o, delta })) =~= settled_context(
                        c,
                    ).push(Context { opening: o, delta: 0 }));
                },
                Side::Closing => {
                    if c.len() > 0 {
                        assert(settled_context(c.drop_last()) =~= settled_context(c).drop_last());
                    }
                },
            }
        }
    }
}

proof fn lemma_paren_run_idempotent_prefix(
    lines: Seq<LineView>,
    st: ParenRunState,
    changes: Map<usize, Delta>,
)
    requires
        lines.len() <= usize::MAX,
        paren_fold(lines) == ParenRun::Running(st),
        paren_run_exact(lines),
        forall|r: int| 0 <= r < lines.len() ==> change_at(changes, r) == change_at(st.changes, r),
    ensures
        paren_fold(apply_indent_changes(lines, changes)) == ParenRun::Running(
            ParenRunState {
                max_indent: st.max_indent,
                context: settled_context(st.context),
                changes: Map::empty(),
            },
        ),
    decreases lines.len(),
{
    let applied = apply_indent_changes(lines, changes);
    if lines.len() == 0 {
        assert(settled_context(st.context) =~= Seq::<Context>::empty());
    } else {
        let n = lines.len() - 1;
        let prefix = lines.drop_last();
        if !(paren_fold(prefix) is Running) {
            assert(prefix =~= lines.take(n));
            lemma_paren_fold_stops(lines, n);
        }
        let prev = paren_fold(prefix)->Running_0;
        let line = lines.last();
        let d = raw_delta(prev, line) as isize;
        assert(paren_fold(lines) == paren_line_step(prev, n, line));
        assert(line_in_range(prev, line));
        assert(st.changes == if d != 0 {
            prev.changes.insert(n as usize, d)
        } else {
            prev.changes
        });
        lemma_paren_changes_rows(prefix, prev);
        assert forall|r: int| 0 <= r < prefix.len() implies change_at(changes, r) == change_at(
            prev.changes,
            r,
        ) by {
            assert(change_at(changes, r) == change_at(st.changes, r));
        }
        lemma_paren_run_idempotent_prefix(prefix, prev, changes);
        assert(applied.drop_last() =~= apply_indent_changes(prefix, changes));
        assert(change_at(changes, n) == d) by {
            assert(change_at(changes, n) == change_at(st.changes, n));
            assert(!prev.changes.contains_key(n as usize));
        }
        let shifted = applied.last();
        assert(shifted == shift_line(line, d));
        let prev2 = ParenRunState {
            max_indent: prev.max_indent,
            context: settled_context(prev.context),
            changes: Map::empty(),
        };
        let c = clamped_indent(prev, line);
        let min = min_indent(prev.context) as usize;
        if prev.context.len() > 0 {
            assert(settled_context(prev.context).last().opening == prev.context.last().opening);
        }
        assert(min_indent(prev2.context) == min_indent(prev.context));
        assert(enclosing_delta(prev2.context) == 0);
        assert(shifted.indent == c);
        assert(clamped_indent(prev2, shifted) == c);
        assert(raw_delta(prev2, shifted) == 0);
        lemma_parens_fold_shifted(prev.context, prev.max_indent, line.parens, d);
    }
}

/// Paren mode is idempotent: once its indentation changes are applied, a
/// second run changes nothing. This holds whenever the first run succeeds
/// and its indentations fit in `isize`.
pub proof fn lemma_paren_run_idempotent(lines: Seq<LineView>)
    requires
        lines.len() <= usize::MAX,
        paren_fold(lines) is Running,
        paren_run_exact(lines),
    ensures
        paren_fold(apply_indent_changes(lines, paren_fold(lines)->Running_0.changes)) is Running,
        paren_fold(
            apply_indent_changes(lines, paren_fold(lines)->Running_0.changes),
        )->Running_0.changes == Map::<usize, Delta>::empty(),
{
    let st = paren_fold(lines)->Running_0;
    lemma_paren_run_idempotent_prefix(lines, st, st.changes);
}

/// After at least one paren, the parens of a line leave the same open parens
/// and the same limit whatever limit they started from.
proof fn lemma_parens_fold_limit_reset(
    context: Seq<Context>,
    m1: Column,
    m2: Column,
    parens: Seq<Paren>,
    delta: Delta,
)
    requires
        parens.len() > 0,
    ensures
        parens_fold(context, m1, parens, delta) == parens_fold(context, m2, parens, delta),
    decreases parens.len(),
{
    if parens.len() > 1 {
        lemma_parens_fold_limit_reset(context, m1, m2, parens.drop_last(), delta);
    } else {
        assert(parens.drop_last() =~= Seq::<Paren>::empty());
        assert(parens_fold(context, m1, parens.drop_last(), delta) == Some((context, m1)));
        assert(parens_fold(context, m2, parens.drop_last(), delta) == Some((context, m2)));
        assert(paren_step(context, m1, parens.last(), delta) == paren_step(
            context,
            m2,
            parens.last(),
            delta,
        ));
    }
}

proof fn lemma_paren_fold_append_prefix(a: Seq<LineView>, b: Seq<LineView>, k: int)
    requires
        a.len() + b.len() <= usize::MAX,
        paren_fold(a) is Running,
        paren_fold(a)->Running_0.context.len() == 0,
        1 <= k <= b.len(),
        b[0].indent == 0,
        b[0].parens.len() > 0,
    ensures
        (paren_fold(a + b.take(k)) is Running) == (paren_fold(b.take(k)) is Running),
        (paren_fold(a + b.take(k)) is Unbalanced) == (paren_fold(b.take(k)) is Unbalanced),
        paren_fold(a + b.take(k)) is Running ==> {
            let sa = paren_fold(a + b.take(k))->Running_0;
            let sb = paren_fold(b.take(k))->Running_0;
            &&& sa.max_indent == sb.max_indent
            &&& sa.context == sb.context
            &&& forall|r: int|
                0 <= r < a.len() + k ==> #[trigger] change_at(sa.changes, r) == if r < a.len() {
                    change_at(paren_fold(a)->Running_0.changes, r)
                } else {
                    change_at(sb.changes, r - a.len())
                }
        },
    decreases k,
{
    let ab = a + b.take(k);
    let bk = b.take(k);
    let line = b[k - 1];
    assert(ab.drop_last() =~= a + b.take(k - 1));
    assert(bk.drop_last() =~= b.take(k - 1));
    assert(ab.last() == line);
    assert(bk.last() == line);
    assert(ab.len() == a.len() + k);
    let fa = paren_fold(a)->Running_0;
    if k == 1 {
        assert(b.take(0) =~= Seq::<LineView>::empty());
        assert(a + b.take(0) =~= a);
        let start = paren_run_start();
        lemma_paren_changes_rows(a, fa);
        assert(clamped_indent(fa, line) == 0);
        assert(clamped_indent(start, line) == 0);
        assert(line_in_range(fa, line));
        assert(line_in_range(start, line));
        lemma_parens_fold_limit_reset(fa.context, fa.max_indent, usize::MAX, line.parens, 0);
        assert(fa.context =~= start.context);
        if paren_fold(ab) is Running {
            let sa = paren_fold(ab)->Running_0;
            let sb = paren_fold(bk)->Running_0;
            assert forall|r: int| 0 <= r < a.len() + k implies #[trigger] change_at(sa.changes, r)
                == if r < a.len() {
                change_at(fa.changes, r)
            } else {
                change_at(sb.changes, r - a.len())
            } by {
                if r == a.len() {
                    assert(!fa.changes.contains_key(r as usize));
                }
            }
        }
    } else {
        lemma_paren_fold_append_prefix(a, b, k - 1);
        let pa = paren_fold(a + b.take(k - 1));
        let pb = paren_fold(b.take(k - 1));
        if pa is Running {
            let qa = pa->Running_0;
            let qb = pb->Running_0;
            assert(raw_delta(qa, line) == raw_delta(qb, line));
            assert(line_in_range(qa, line) == line_in_range(qb, line));
            lemma_paren_changes_rows(b.take(k - 1), qb);
            lemma_paren_changes_rows(a + b.take(k - 1), qa);
            if paren_fold(ab) is Running {
                let sa = paren_fold(ab)->Running_0;
                let sb = paren_fold(bk)->Running_0;
                let d = raw_delta(qa, line) as isize;
                assert(sa.changes == if d != 0 {
                    qa.changes.insert((a.len() + k - 1) as usize, d)
                } else {
                    qa.changes
                });
                assert(sb.changes == if d != 0 {
                    qb.changes.insert((k - 1) as usize, d)
                } else {
                    qb.changes
                });
                assert forall|r: int| 0 <= r < a.len() + k implies #[trigger] change_at(
                    sa.changes,
                    r,
                ) == if r < a.len() {
                    change_at(fa.changes, r)
                } else {
                    change_at(sb.changes, r - a.len())
                } by {
                    if r < a.len() + k - 1 {
                        assert(change_at(qa.changes, r) == if r < a.len() {
                            change_at(fa.changes, r)
                        } else {
                            change_at(qb.changes, r - a.len())
                        });
                    } else {
                        assert(!qa.changes.contains_key(r as usize));
                        assert(!qb.changes.contains_key((r - a.len()) as usize));
                    }
                }
            }
        }
    }
}

/// Top-level forms are indented independently of each other: once lines `a`
/// have closed every paren they opened, lines `b` that start at column 0 with
/// a paren fail or get changed exactly as a run over `b` alone would have them,
/// and the lines of `a` keep their own changes. The limit that the last
/// closing paren of `a` set holds no line of `b`: the first paren of `b` lifts
/// it. So a text made of forms that need no change needs none.
pub proof fn lemma_paren_run_forms_independent(a: Seq<LineView>, b: Seq<LineView>)
    requires
        a.len() + b.len() <= usize::MAX,
        paren_fold(a) is Running,
        paren_fold(a)->Running_0.context.len() == 0,
        b.len() > 0,
        b[0].indent == 0,
        b[0].parens.len() > 0,
    ensures
        (paren_fold(a + b) is Running) == (paren_fold(b) is Running),
        (paren_fold(a + b) is Unbalanced) == (paren_fold(b) is Unbalanced),
        paren_fold(a + b) is Running ==> forall|r: int|
            0 <= r < a.len() + b.len() ==> #[trigger] change_at(
                paren_fold(a + b)->Running_0.changes,
                r,
            ) == if r < a.len() {
                change_at(paren_fold(a)->Running_0.changes, r)
            } else {
                change_at(paren_fold(b)->Running_0.changes, r - a.len())
            },
{
    lemma_paren_fold_append_prefix(a, b, b.len() as int);
    assert(b.take(b.len() as int) =~= b);
}

/// A paren moved `k` columns right.
pub open spec fn move_paren(p: Paren, k: usize) -> Paren {
    Paren { col: (p.col + k) as usize, kind: p.kind, side: p.side, mid_line: p.mid_line }
}

/// The lines moved `k` columns right: every indentation and every paren.
pub open spec fn move_lines(lines: Seq<LineView>, k: usize) -> Seq<LineView> {
    Seq::new(
        lines.len(),
        |i: int|
            LineView {
                parens: lines[i].parens.map_values(|p: Paren| move_paren(p, k)),
                indent: (lines[i].indent + k) as usize,
            },
    )
}

/// Moving the lines `k` columns right keeps every column within `usize`.
pub open spec fn can_move(lines: Seq<LineView>, k: usize) -> bool {
    forall|i: int|
        0 <= i < lines.len() ==> {
            &&& #[trigger] lines[i].indent + k <= usize::MAX
            &&& forall|j: int|
                0 <= j < lines[i].parens.len() ==> #[trigger] lines[i].parens[j].col + k
                    <= usize::MAX
        }
}

proof fn lemma_move_lines_drop_last(lines: Seq<LineView>, k: usize)
    requires
        lines.len() > 0,
    ensures
        move_lines(lines, k).drop_last() == move_lines(lines.drop_last(), k),
        move_lines(lines, k).last() == (LineView {
            parens: lines.last().parens.map_values(|p: Paren| move_paren(p, k)),
            indent: (lines.last().indent + k) as usize,
        }),
        can_move(lines, k) ==> can_move(lines.drop_last(), k),
{
    assert(move_lines(lines, k).drop_last() =~= move_lines(lines.drop_last(), k));
    if can_move(lines, k) {
        let prefix = lines.drop_last();
        assert forall|i: int| 0 <= i < prefix.len() implies {
            &&& #[trigger] prefix[i].indent + k <= usize::MAX
            &&& forall|j: int|
                0 <= j < prefix[i].parens.len() ==> #[trigger] prefix[i].parens[j].col + k
                    <= usize::MAX
        } by {
            assert(prefix[i] == lines[i]);
        }
    }
}

/// Every paren of a line stands at or right of its indentation.
pub open spec fn parens_after_indent(lines: Seq<LineView>) -> bool {
    forall|i: int, j: int|
        0 <= i < lines.len() && 0 <= j < lines[i].parens.len() ==> #[trigger] lines[i].parens[j].col
            >= lines[i].indent
}

/// Along a paren-mode run, each line's indentation before and after, and each
/// of its parens moved by the line's change, stay within `isize`.
pub open spec fn paren_run_bounded(lines: Seq<LineView>) -> bool
    decreases lines.len(),
{
    lines.len() == 0 || {
        &&& paren_run_bounded(lines.drop_last())
        &&& match paren_fold(lines.drop_last()) {
            ParenRun::Running(st) => {
                &&& lines.last().indent <= isize::MAX
                &&& clamped_indent(st, lines.last()) <= isize::MAX
                &&& forall|j: int|
                    0 <= j < lines.last().parens.len() ==> #[trigger] lines.last().parens[j].col
                        + raw_delta(st, lines.last()) <= isize::MAX
            },
            _ => true,
        }
    }
}

/// An indentation limit moved `k` columns right; no limit stays none.
pub open spec fn move_limit(m: Column, k: usize) -> Column {
    if m == usize::MAX {
        m
    } else {
        (m + k) as usize
    }
}

/// The open parens of a run moved `k` columns right.
pub open spec fn move_context(context: Seq<Context>, k: usize) -> Seq<Context> {
    context.map_values(|c: Context| Context { opening: move_paren(c.opening, k), delta: c.delta })
}

/// A paren-mode state with its columns moved `k` columns right.
pub open spec fn move_paren_state(st: ParenRunState, k: usize) -> ParenRunState {
    ParenRunState {
        max_indent: move_limit(st.max_indent, k),
        context: move_context(st.context, k),
        changes: st.changes,
    }
}

/// The columns of a run's state stay within `isize` when moved `k` right.
spec fn paren_state_movable(context: Seq<Context>, max_indent: Column, k: usize) -> bool {
    &&& forall|i: int| 0 <= i < context.len() ==> #[trigger] context[i].opening.col + k <= isize::MAX
    &&& max_indent == usize::MAX || max_indent + k <= isize::MAX
}

proof fn lemma_clamped_moved(st: ParenRunState, line: LineView, k: usize)
    requires
        paren_state_movable(st.context, st.max_indent, k),
        line.indent + k <= isize::MAX,
        clamped_indent(
            move_paren_state(st, k),
            LineView { parens: line.parens, indent: (line.indent + k) as usize },
        ) <= isize::MAX,
    ensures
        clamped_indent(
            move_paren_state(st, k),
            LineView { parens: line.parens, indent: (line.indent + k) as usize },
        ) == clamped_indent(st, line) + k,
        min_indent(move_context(st.context, k)) <= usize::MAX,
        min_indent(st.context) <= usize::MAX,
{
    let m = move_paren_state(st, k);
    let line2 = LineView { parens: line.parens, indent: (line.indent + k) as usize };
    let o = line.indent as int;
    if st.context.len() > 0 {
        let last = st.context.last();
        assert(m.context.last() == Context { opening: move_paren(last.opening, k), delta: last.delta });
        assert(last.opening.col + k <= isize::MAX);
        assert(min_indent(m.context) == min_indent(st.context) + k);
        assert(enclosing_delta(m.context) == enclosing_delta(st.context));
    } else {
        assert(min_indent(m.context) == 0);
        assert(enclosing_delta(m.context) == 0);
    }
}

proof fn lemma_parens_fold_moved(
    context: Seq<Context>,
    max_indent: Column,
    parens: Seq<Paren>,
    delta: Delta,
    indent: Column,
    k: usize,
)
    requires
        paren_state_movable(context, max_indent, k),
        indent + delta >= 0,
        forall|j: int| 0 <= j < parens.len() ==> #[trigger] parens[j].col >= indent,
        forall|j: int| 0 <= j < parens.len() ==> #[trigger] parens[j].col + k + delta <= isize::MAX,
    ensures
        parens_fold(
            move_context(context, k),
            move_limit(max_indent, k),
            parens.map_values(|p: Paren| move_paren(p, k)),
            delta,
        ) == match parens_fold(context, max_indent, parens, delta) {
            None => None,
            Some((c, m)) => Some((move_context(c, k), move_limit(m, k))),
        },
        parens_fold(context, max_indent, parens, delta) matches Some((c, m))
            ==> paren_state_movable(c, m, k),
    decreases parens.len(),
{
    let moved = parens.map_values(|p: Paren| move_paren(p, k));
    if parens.len() > 0 {
        let prev = parens.drop_last();
        assert(moved.drop_last() =~= prev.map_values(|p: Paren| move_paren(p, k)));
        assert forall|j: int| 0 <= j < prev.len() implies #[trigger] prev[j].col >= indent
            && prev[j].col + k + delta <= isize::MAX by {
            assert(prev[j] == parens[j]);
        }
        lemma_parens_fold_moved(context, max_indent, prev, delta, indent, k);
        if let Some((c, m)) = parens_fold(context, max_indent, prev, delta) {
            let p = parens.last();
            assert(p == parens[parens.len() - 1]);
            assert(moved.last() == move_paren(p, k));
            let mc = move_context(c, k);
            match p.side {
                Side::Opening => {
                    let o = Paren {
                        col: sat_add_signed(p.col, delta),
                        kind: p.kind,
                        side: p.side,
                        mid_line: p.mid_line,
                    };
                    assert(o.col == p.col + delta);
                    assert(sat_add_signed(move_paren(p, k).col, delta) == o.col + k);
                    assert(move_context(c.push(Context { opening: o, delta }), k) =~= mc.push(
                        Context { opening: move_paren(o, k), delta },
                    ));
                    let c2 = c.push(Context { opening: o, delta });
                    assert forall|i: int| 0 <= i < c2.len() implies #[trigger] c2[i].opening.col + k
                        <= isize::MAX by {
                        if i < c.len() {
                            assert(c2[i] == c[i]);
                        }
                    }
                },
                Side::Closing => {
                    if c.len() > 0 {
                        assert(mc.last() == Context {
                            opening: move_paren(c.last().opening, k),
                            delta: c.last().delta,
                        });
                        assert(c.last().opening.col + k <= isize::MAX);
                        assert(move_context(c.drop_last(), k) =~= mc.drop_last());
                        let c2 = c.drop_last();
                        assert forall|i: int| 0 <= i < c2.len() implies #[trigger] c2[i].opening.col
                            + k <= isize::MAX by {
                            assert(c2[i] == c[i]);
                        }
                    }
                },
            }
        }
    }
}

proof fn lemma_paren_fold_moved(lines: Seq<LineView>, k: usize)
    requires
        can_move(lines, k),
        parens_after_indent(lines),
        paren_run_bounded(move_lines(lines, k)),
    ensures
        match paren_fold(lines) {
            ParenRun::Running(st) => {
                &&& paren_fold(move_lines(lines, k)) == ParenRun::Running(move_paren_state(st, k))
                &&& paren_state_movable(st.context, st.max_indent, k)
            },
            ParenRun::Unbalanced => paren_fold(move_lines(lines, k)) is Unbalanced,
            ParenRun::Overflow => false,
        },
    decreases lines.len(),
{
    let moved = move_lines(lines, k);
    if lines.len() == 0 {
        assert(move_context(Seq::<Context>::empty(), k) =~= Seq::<Context>::empty());
    } else {
        let prefix = lines.drop_last();
        lemma_move_lines_drop_last(lines, k);
        assert(parens_after_indent(prefix)) by {
            assert forall|i: int, j: int|
                0 <= i < prefix.len() && 0 <= j < prefix[i].parens.len() implies #[trigger] prefix[i].parens[j].col
                >= prefix[i].indent by {
                assert(prefix[i] == lines[i]);
            }
        }
        lemma_paren_fold_moved(prefix, k);
        if let ParenRun::Running(st1) = paren_fold(prefix) {
            let line = lines.last();
            assert(line == lines[lines.len() - 1]);
            assert(line.indent + k <= usize::MAX);
            let st2 = move_paren_state(st1, k);
            let line2 = moved.last();
            let line3 = LineView { parens: line.parens, indent: (line.indent + k) as usize };
            assert(clamped_indent(st2, line2) == clamped_indent(st2, line3));
            lemma_clamped_moved(st1, line, k);
            let c1 = clamped_indent(st1, line);
            let d = raw_delta(st1, line);
            assert(raw_delta(st2, line2) == d);
            assert(line_in_range(st1, line));
            assert(line_in_range(st2, line2));
            assert forall|j: int| 0 <= j < line.parens.len() implies #[trigger] line.parens[j].col
                >= line.indent && line.parens[j].col + k + d <= isize::MAX by {
                assert(line2.parens[j] == move_paren(line.parens[j], k));
                assert(line.parens[j].col + k <= usize::MAX);
                assert(moved.drop_last() == move_lines(prefix, k));
                assert(line2.parens[j].col + raw_delta(st2, line2) <= isize::MAX);
                assert(lines[lines.len() - 1].parens[j].col >= lines[lines.len() - 1].indent);
            }
            lemma_parens_fold_moved(
                st1.context,
                st1.max_indent,
                line.parens,
                d as isize,
                line.indent,
                k,
            );
        }
    }
}

/// Moving every line and all its parens `k` columns right leaves paren mode's
/// result unchanged: the same failure, or the same changes. This holds when
/// every paren stands at or right of its line's indentation and the moved
/// run keeps its columns within `isize`.
pub proof fn lemma_paren_run_moved(lines: Seq<LineView>, k: usize)
    requires
        can_move(lines, k),
        parens_after_indent(lines),
        paren_run_bounded(move_lines(lines, k)),
    ensures
        !(paren_fold(lines) is Overflow),
        !(paren_fold(move_lines(lines, k)) is Overflow),
        (paren_fold(move_lines(lines, k)) is Unbalanced) == (paren_fold(lines) is Unbalanced),
        paren_fold(lines) is Running ==> paren_fold(move_lines(lines, k))->Running_0.changes
            == paren_fold(lines)->Running_0.changes,
{
    lemma_paren_fold_moved(lines, k);
}

// ---------------------------------------------------------------------------
// Indent mode
// ---------------------------------------------------------------------------

/// The state of an indent-mode run between two lines.
#[verifier::ext_equal]
pub struct IndentRunState {
    /// opening parens without a closing paren yet, innermost last
    pub unpaired: Seq<Paren>,
    /// opening parens closed at the end of a line, with that closing paren and
    /// its row, in the order they were closed
    pub paired: Seq<(Paren, Paren, usize)>,
    /// closing parens to delete, with their rows
    pub deleted: Seq<(usize, Paren)>,
    /// the rows to which a closing paren is appended, one entry each
    pub added: Seq<usize>,
}

pub open spec fn indent_run_start() -> IndentRunState {
    IndentRunState {
        unpaired: Seq::empty(),
        paired: Seq::empty(),
        deleted: Seq::empty(),
        added: Seq::empty(),
    }
}

/// Close, at the end of the previous row, each unpaired opening paren that a
/// line with this indentation does not stay right of.
pub open spec fn close_unpaired(st: IndentRunState, indent: Column, row: int) -> IndentRunState
    decreases st.unpaired.len(),
{
    if st.unpaired.len() > 0 && indent <= st.unpaired.last().col {
        close_unpaired(
            IndentRunState {
                unpaired: st.unpaired.drop_last(),
                added: st.added.push((row - 1) as usize),
                ..st
            },
            indent,
            row,
        )
    } else {
        st
    }
}

/// Move to the end of the previous row the closing paren of each paired
/// opening paren, oldest first, that a line with this indentation does not
/// stay right of, unless it already stands on that row.
pub open spec fn settle_paired(st: IndentRunState, indent: Column, row: int) -> IndentRunState
    decreases st.paired.len(),
{
    if st.paired.len() > 0 && indent <= st.paired[0].0.col {
        let (lp, rp, rp_row) = st.paired[0];
        let rest = IndentRunState { paired: st.paired.drop_first(), ..st };
        if row - 1 != rp_row {
            settle_paired(
                IndentRunState {
                    deleted: rest.deleted.push((rp_row, rp)),
                    added: rest.added.push((row - 1) as usize),
                    ..rest
                },
                indent,
                row,
            )
        } else {
            settle_paired(rest, indent, row)
        }
    } else {
        st
    }
}

/// What one paren of a line at the given row does.
pub open spec fn indent_paren_step(st: IndentRunState, p: Paren, row: int) -> IndentRunState {
    match p.side {
        Side::Opening => IndentRunState { unpaired: st.unpaired.push(p), ..st },
        Side::Closing => {
            if st.unpaired.len() > 0 && st.unpaired.last().kind == p.kind {
                if !p.mid_line {
                    IndentRunState {
                        unpaired: st.unpaired.drop_last(),
                        paired: st.paired.push((st.unpaired.last(), p, row as usize)),
                        ..st
                    }
                } else {
                    IndentRunState { unpaired: st.unpaired.drop_last(), ..st }
                }
            } else {
                IndentRunState {
                    unpaired: if st.unpaired.len() > 0 {
                        st.unpaired.drop_last()
                    } else {
                        st.unpaired
                    },
                    deleted: st.deleted.push((row as usize, p)),
                    ..st
                }
            }
        },
    }
}

/// The parens of a line, taken left to right.
pub open spec fn indent_parens_fold(st: IndentRunState, parens: Seq<Paren>, row: int) -> IndentRunState
    decreases parens.len(),
{
    if parens.len() == 0 {
        st
    } else {
        indent_paren_step(indent_parens_fold(st, parens.drop_last(), row), parens.last(), row)
    }
}

/// One line of an indent-mode run.
pub open spec fn indent_row_step(
    st: IndentRunState,
    parens: Seq<Paren>,
    indent: Column,
    row: int,
) -> IndentRunState {
    indent_parens_fold(settle_paired(close_unpaired(st, indent, row), indent, row), parens, row)
}

/// An indent-mode run over the given lines, before the closing empty line.
pub open spec fn indent_fold(lines: Seq<LineView>) -> IndentRunState
    decreases lines.len(),
{
    if lines.len() == 0 {
        indent_run_start()
    } else {
        indent_row_step(
            indent_fold(lines.drop_last()),
            lines.last().parens,
            lines.last().indent,
            lines.len() - 1,
        )
    }
}

/// An indent-mode run over the given lines followed by an empty line with no
/// indentation, which closes what is still open.
pub open spec fn indent_result(lines: Seq<LineView>) -> IndentRunState {
    indent_row_step(indent_fold(lines), Seq::empty(), 0, lines.len() as int)
}

/// `p` is a closing paren on row `r` of `lines`.
pub open spec fn closing_paren_of(lines: Seq<LineView>, r: int, p: Paren) -> bool {
    &&& 0 <= r < lines.len()
    &&& p.side is Closing
    &&& lines[r].parens.contains(p)
}

/// The edits of a run name only closing parens of `lines` and rows below
/// `bound`.
pub open spec fn edits_within(st: IndentRunState, lines: Seq<LineView>, bound: int) -> bool {
    &&& forall|i: int|
        0 <= i < st.deleted.len() ==> #[trigger] closing_paren_of(
            lines,
            st.deleted[i].0 as int,
            st.deleted[i].1,
        ) && st.deleted[i].0 < bound
    &&& forall|i: int|
        0 <= i < st.paired.len() ==> #[trigger] closing_paren_of(
            lines,
            st.paired[i].2 as int,
            st.paired[i].1,
        ) && st.paired[i].2 < bound
    &&& forall|i: int| 0 <= i < st.added.len() ==> #[trigger] st.added[i] < bound
}

proof fn lemma_close_unpaired_within(
    st: IndentRunState,
    lines: Seq<LineView>,
    indent: Column,
    row: int,
)
    requires
        0 <= row <= usize::MAX,
        row > 0 || st.unpaired.len() == 0,
        edits_within(st, lines, row),
    ensures
        edits_within(close_unpaired(st, indent, row), lines, row),
        close_unpaired(st, indent, row).paired == st.paired,
        close_unpaired(st, indent, row).deleted == st.deleted,
    decreases st.unpaired.len(),
{
    if st.unpaired.len() > 0 && indent <= st.unpaired.last().col {
        let next = IndentRunState {
            unpaired: st.unpaired.drop_last(),
            added: st.added.push((row - 1) as usize),
            ..st
        };
        assert(edits_within(next, lines, row)) by {
            assert forall|i: int| 0 <= i < next.added.len() implies #[trigger] next.added[i]
                < row by {
                if i < st.added.len() {
                    assert(next.added[i] == st.added[i]);
                }
            }
        }
        lemma_close_unpaired_within(next, lines, indent, row);
    }
}

proof fn lemma_settle_paired_within(st: IndentRunState, lines: Seq<LineView>, indent: Column, row: int)
    requires
        0 <= row <= usize::MAX,
        row > 0 || st.paired.len() == 0,
        edits_within(st, lines, row),
    ensures
        edits_within(settle_paired(st, indent, row), lines, row),
    decreases st.paired.len(),
{
    if st.paired.len() > 0 && indent <= st.paired[0].0.col {
        let (lp, rp, rp_row) = st.paired[0];
        let rest = IndentRunState { paired: st.paired.drop_first(), ..st };
        assert(closing_paren_of(lines, st.paired[0].2 as int, st.paired[0].1));
        assert(edits_within(rest, lines, row)) by {
            assert forall|i: int| 0 <= i < rest.paired.len() implies #[trigger] closing_paren_of(
                lines,
                rest.paired[i].2 as int,
                rest.paired[i].1,
            ) && rest.paired[i].2 < row by {
                assert(rest.paired[i] == st.paired[i + 1]);
            }
        }
        if row - 1 != rp_row {
            let next = IndentRunState {
                deleted: rest.deleted.push((rp_row, rp)),
                added: rest.added.push((row - 1) as usize),
                ..rest
            };
            assert(edits_within(next, lines, row)) by {
                assert forall|i: int| 0 <= i < next.added.len() implies #[trigger] next.added[i]
                    < row by {
                    if i < rest.added.len() {
                        assert(next.added[i] == rest.added[i]);
                    }
                }
                assert forall|i: int| 0 <= i < next.deleted.len() implies #[trigger] closing_paren_of(
                    lines,
                    next.deleted[i].0 as int,
                    next.deleted[i].1,
                ) && next.deleted[i].0 < row by {
                    if i < rest.deleted.len() {
                        assert(next.deleted[i] == rest.deleted[i]);
                    }
                }
            }
            lemma_settle_paired_within(next, lines, indent, row);
        } else {
            lemma_settle_paired_within(rest, lines, indent, row);
        }
    }
}

proof fn lemma_indent_parens_within(
    st: IndentRunState,
    parens: Seq<Paren>,
    lines: Seq<LineView>,
    row: int,
)
    requires
        0 <= row < lines.len(),
        lines.len() <= usize::MAX,
        forall|j: int| 0 <= j < parens.len() ==> lines[row].parens.contains(#[trigger] parens[j]),
        edits_within(st, lines, row + 1),
    ensures
        edits_within(indent_parens_fold(st, parens, row), lines, row + 1),
    decreases parens.len(),
{
    if parens.len() > 0 {
        let prev = parens.drop_last();
        assert forall|j: int| 0 <= j < prev.len() implies lines[row].parens.contains(
            #[trigger] prev[j],
        ) by {
            assert(prev[j] == parens[j]);
        }
        lemma_indent_parens_within(st, prev, lines, row);
        let s1 = indent_parens_fold(st, prev, row);
        let p = parens.last();
        assert(lines[row].parens.contains(parens[parens.len() - 1]));
        let s2 = indent_paren_step(s1, p, row);
        assert(edits_within(s2, lines, row + 1)) by {
            if p.side is Closing {
                assert(closing_paren_of(lines, row, p));
                assert forall|i: int| 0 <= i < s2.paired.len() implies #[trigger] closing_paren_of(
                    lines,
                    s2.paired[i].2 as int,
                    s2.paired[i].1,
                ) && s2.paired[i].2 < row + 1 by {
                    if i < s1.paired.len() {
                        assert(s2.paired[i] == s1.paired[i]);
                        assert(closing_paren_of(lines, s1.paired[i].2 as int, s1.paired[i].1));
                    } else {
                        assert(s2.paired[i] == (s1.unpaired.last(), p, row as usize));
                        assert((row as usize) as int == row);
                    }
                }
                assert forall|i: int| 0 <= i < s2.deleted.len() implies #[trigger] closing_paren_of(
                    lines,
                    s2.deleted[i].0 as int,
                    s2.deleted[i].1,
                ) && s2.deleted[i].0 < row + 1 by {
                    if i < s1.deleted.len() {
                        assert(s2.deleted[i] == s1.deleted[i]);
                        assert(closing_paren_of(lines, s1.deleted[i].0 as int, s1.deleted[i].1));
                    } else {
                        assert(s2.deleted[i] == (row as usize, p));
                        assert((row as usize) as int == row);
                    }
                }
            }
        }
    }
}

proof fn lemma_indent_fold_within(lines: Seq<LineView>, k: int)
    requires
        0 <= k <= lines.len(),
        lines.len() <= usize::MAX,
    ensures
        edits_within(indent_fold(lines.take(k)), lines, k),
        k == 0 ==> indent_fold(lines.take(k)) == indent_run_start(),
    decreases k,
{
    if k > 0 {
        lemma_indent_fold_within(lines, k - 1);
        let row = k - 1;
        assert(lines.take(k).drop_last() =~= lines.take(row));
        let st = indent_fold(lines.take(row));
        let parens = lines[row].parens;
        let indent = lines[row].indent;
        assert(lines.take(k).last() == lines[row]);
        lemma_close_unpaired_within(st, lines, indent, row);
        let s1 = close_unpaired(st, indent, row);
        lemma_settle_paired_within(s1, lines, indent, row);
        let s2 = settle_paired(s1, indent, row);
        assert(edits_within(s2, lines, row + 1));
        assert forall|j: int| 0 <= j < parens.len() implies lines[row].parens.contains(
            #[trigger] parens[j],
        ) by {}
        lemma_indent_parens_within(s2, parens, lines, row);
    }
}

/// Indent mode deletes only closing parens that stand on the rows where it
/// says, and appends closing parens only at the end of existing rows.
pub proof fn lemma_indent_edits_within(lines: Seq<LineView>)
    requires
        lines.len() <= usize::MAX,
    ensures
        forall|i: int|
            0 <= i < indent_result(lines).deleted.len() ==> #[trigger] closing_paren_of(
                lines,
                indent_result(lines).deleted[i].0 as int,
                indent_result(lines).deleted[i].1,
            ),
        forall|i: int|
            0 <= i < indent_result(lines).added.len() ==> #[trigger] indent_result(
                lines,
            ).added[i] < lines.len(),
{
    let n = lines.len() as int;
    lemma_indent_fold_within(lines, n);
    assert(lines.take(n) =~= lines);
    let st = indent_fold(lines);
    lemma_close_unpaired_within(st, lines, 0, n);
    let s1 = close_unpaired(st, 0, n);
    lemma_settle_paired_within(s1, lines, 0, n);
}

/// The number of opening parens.
pub open spec fn opening_count(parens: Seq<Paren>) -> nat
    decreases parens.len(),
{
    if parens.len() == 0 {
        0
    } else {
        opening_count(parens.drop_last()) + if parens.last().side is Opening {
            1nat
        } else {
            0nat
        }
    }
}

/// The number of closing parens.
pub open spec fn closing_count(parens: Seq<Paren>) -> nat
    decreases parens.len(),
{
    if parens.len() == 0 {
        0
    } else {
        closing_count(parens.drop_last()) + if parens.last().side is Closing {
            1nat
        } else {
            0nat
        }
    }
}

/// All the given parens are of kind `kind`.
pub open spec fn all_of_kind(parens: Seq<Paren>, kind: char) -> bool {
    forall|j: int| 0 <= j < parens.len() ==> (#[trigger] parens[j]).kind == kind
}

/// Closing parens to delete, less those to append, less the opening parens
/// left open.
spec fn indent_excess(st: IndentRunState) -> int {
    st.deleted.len() - st.added.len() - st.unpaired.len()
}

proof fn lemma_counts_concat(a: Seq<Paren>, b: Seq<Paren>)
    ensures
        opening_count(a + b) == opening_count(a) + opening_count(b),
        closing_count(a + b) == closing_count(a) + closing_count(b),
    decreases b.len(),
{
    if b.len() == 0 {
        assert(a + b =~= a);
    } else {
        assert((a + b).drop_last() =~= a + b.drop_last());
        assert((a + b).last() == b.last());
        lemma_counts_concat(a, b.drop_last());
    }
}

proof fn lemma_close_unpaired_excess(st: IndentRunState, indent: Column, row: int, kind: char)
    requires
        all_of_kind(st.unpaired, kind),
    ensures
        indent_excess(close_unpaired(st, indent, row)) == indent_excess(st),
        all_of_kind(close_unpaired(st, indent, row).unpaired, kind),
        close_unpaired(st, indent, row).unpaired.len() <= st.unpaired.len(),
        indent == 0 ==> close_unpaired(st, indent, row).unpaired.len() == 0,
    decreases st.unpaired.len(),
{
    if st.unpaired.len() > 0 && indent <= st.unpaired.last().col {
        let next = IndentRunState {
            unpaired: st.unpaired.drop_last(),
            added: st.added.push((row - 1) as usize),
            ..st
        };
        assert(all_of_kind(next.unpaired, kind)) by {
            assert forall|j: int| 0 <= j < next.unpaired.len() implies (
            #[trigger] next.unpaired[j]).kind == kind by {
                assert(next.unpaired[j] == st.unpaired[j]);
            }
        }
        lemma_close_unpaired_excess(next, indent, row, kind);
    }
}

proof fn lemma_settle_paired_excess(st: IndentRunState, indent: Column, row: int)
    ensures
        indent_excess(settle_paired(st, indent, row)) == indent_excess(st),
        settle_paired(st, indent, row).unpaired == st.unpaired,
    decreases st.paired.len(),
{
    if st.paired.len() > 0 && indent <= st.paired[0].0.col {
        let (lp, rp, rp_row) = st.paired[0];
        let rest = IndentRunState { paired: st.paired.drop_first(), ..st };
        if row - 1 != rp_row {
            lemma_settle_paired_excess(
                IndentRunState {
                    deleted: rest.deleted.push((rp_row, rp)),
                    added: rest.added.push((row - 1) as usize),
                    ..rest
                },
                indent,
                row,
            );
        } else {
            lemma_settle_paired_excess(rest, indent, row);
        }
    }
}

proof fn lemma_indent_parens_excess(st: IndentRunState, parens: Seq<Paren>, row: int, kind: char)
    requires
        all_of_kind(st.unpaired, kind),
        all_of_kind(parens, kind),
    ensures
        all_of_kind(indent_parens_fold(st, parens, row).unpaired, kind),
        opening_count(parens) + indent_excess(indent_parens_fold(st, parens, row)) == closing_count(
            parens,
        ) + indent_excess(st),
    decreases parens.len(),
{
    if parens.len() > 0 {
        let prev = parens.drop_last();
        assert(all_of_kind(prev, kind)) by {
            assert forall|j: int| 0 <= j < prev.len() implies (#[trigger] prev[j]).kind == kind by {
                assert(prev[j] == parens[j]);
            }
        }
        lemma_indent_parens_excess(st, prev, row, kind);
        let s1 = indent_parens_fold(st, prev, row);
        let p = parens.last();
        assert(p.kind == kind);
        let s2 = indent_paren_step(s1, p, row);
        assert(all_of_kind(s2.unpaired, kind)) by {
            assert forall|j: int| 0 <= j < s2.unpaired.len() implies (
            #[trigger] s2.unpaired[j]).kind == kind by {
                if j < s1.unpaired.len() {
                    assert(s2.unpaired[j] == s1.unpaired[j]);
                }
            }
        }
        if s1.unpaired.len() > 0 {
            assert(s1.unpaired.last().kind == kind);
        }
    }
}

proof fn lemma_indent_fold_excess(lines: Seq<LineView>, k: int, kind: char)
    requires
        0 <= k <= lines.len(),
        forall|r: int| 0 <= r < lines.len() ==> all_of_kind(#[trigger] lines[r].parens, kind),
    ensures
        all_of_kind(indent_fold(lines.take(k)).unpaired, kind),
        opening_count(all_parens(lines.take(k))) + indent_excess(indent_fold(lines.take(k)))
            == closing_count(all_parens(lines.take(k))),
    decreases k,
{
    if k == 0 {
        assert(lines.take(k) =~= Seq::<LineView>::empty());
    } else {
        let row = k - 1;
        lemma_indent_fold_excess(lines, row, kind);
        assert(lines.take(k).drop_last() =~= lines.take(row));
        assert(lines.take(k).last() == lines[row]);
        let st = indent_fold(lines.take(row));
        let line = lines[row];
        lemma_close_unpaired_excess(st, line.indent, row, kind);
        let s1 = close_unpaired(st, line.indent, row);
        lemma_settle_paired_excess(s1, line.indent, row);
        let s2 = settle_paired(s1, line.indent, row);
        assert(all_of_kind(line.parens, kind));
        lemma_indent_parens_excess(s2, line.parens, row, kind);
        lemma_counts_concat(all_parens(lines.take(row)), line.parens);
    }
}

/// With a single kind of paren, indent mode leaves as many closing parens as
/// opening ones: the opening parens and the closing parens it deletes number
/// as many as the closing parens and those it appends.
pub proof fn lemma_indent_run_balances(lines: Seq<LineView>, kind: char)
    requires
        forall|r: int| 0 <= r < lines.len() ==> all_of_kind(#[trigger] lines[r].parens, kind),
    ensures
        opening_count(all_parens(lines)) + indent_result(lines).deleted.len() == closing_count(
            all_parens(lines),
        ) + indent_result(lines).added.len(),
{
    let n = lines.len() as int;
    lemma_indent_fold_excess(lines, n, kind);
    assert(lines.take(n) =~= lines);
    let st = indent_fold(lines);
    lemma_close_unpaired_excess(st, 0, n, kind);
    let s1 = close_unpaired(st, 0, n);
    lemma_settle_paired_excess(s1, 0, n);
    assert(Seq::<Paren>::empty().len() == 0);
}

proof fn lemma_indent_parens_fold_concat(st: IndentRunState, a: Seq<Paren>, b: Seq<Paren>, row: int)
    ensures
        indent_parens_fold(st, a + b, row) == indent_parens_fold(
            indent_parens_fold(st, a, row),
            b,
            row,
        ),
    decreases b.len(),
{
    if b.len() == 0 {
        assert(a + b =~= a);
    } else {
        assert((a + b).drop_last() =~= a + b.drop_last());
        assert((a + b).last() == b.last());
        lemma_indent_parens_fold_concat(st, a, b.drop_last(), row);
    }
}

/// No paired entry holds a mid-line closing paren.
spec fn paired_at_line_end(st: IndentRunState) -> bool {
    forall|i: int| 0 <= i < st.paired.len() ==> !(#[trigger] st.paired[i]).1.mid_line
}

/// The parens of a line delete only parens of that line, on its row, and pair
/// no mid-line closing paren.
proof fn lemma_indent_parens_fold_edits(st: IndentRunState, parens: Seq<Paren>, row: int)
    ensures
        forall|e: (usize, Paren)| #[trigger]
            indent_parens_fold(st, parens, row).deleted.contains(e) ==> st.deleted.contains(e) || (
            e.0 == row as usize && parens.contains(e.1)),
        paired_at_line_end(st) ==> paired_at_line_end(indent_parens_fold(st, parens, row)),
    decreases parens.len(),
{
    if parens.len() > 0 {
        let prev = indent_parens_fold(st, parens.drop_last(), row);
        let next = indent_parens_fold(st, parens, row);
        let p = parens.last();
        lemma_indent_parens_fold_edits(st, parens.drop_last(), row);
        assert forall|e: (usize, Paren)| #[trigger] next.deleted.contains(e) implies st.deleted.contains(
            e,
        ) || (e.0 == row as usize && parens.contains(e.1)) by {
            if prev.deleted.contains(e) {
                if !st.deleted.contains(e) {
                    let t = choose|t: int| 0 <= t < parens.drop_last().len() && parens.drop_last()[t] == e.1;
                    assert(parens[t] == e.1);
                }
            } else {
                let t = choose|t: int| 0 <= t < next.deleted.len() && next.deleted[t] == e;
                assert(next.deleted == prev.deleted.push((row as usize, p)));
                assert(t == prev.deleted.len());
                assert(parens[parens.len() - 1] == e.1);
            }
        }
        if paired_at_line_end(st) {
            assert forall|i: int| 0 <= i < next.paired.len() implies !(
            #[trigger] next.paired[i]).1.mid_line by {
                if i < prev.paired.len() {
                    assert(next.paired[i] == prev.paired[i]);
                }
            }
        }
    }
}

/// Parens whose kinds balance as `open_kinds` reads them leave the unpaired
/// parens before them in place and add ones of the kinds it leaves open.
proof fn lemma_indent_parens_fold_nested(st: IndentRunState, parens: Seq<Paren>, row: int)
    requires
        open_kinds(Seq::empty(), parens) is Some,
    ensures
        ({
            let u = indent_parens_fold(st, parens, row).unpaired;
            let ks = open_kinds(Seq::empty(), parens)->Some_0;
            &&& u.len() == st.unpaired.len() + ks.len()
            &&& u.subrange(0, st.unpaired.len() as int) == st.unpaired
            &&& forall|t: int| 0 <= t < ks.len() ==> #[trigger] u[st.unpaired.len() + t].kind == ks[t]
        }),
    decreases parens.len(),
{
    if parens.len() == 0 {
        assert(st.unpaired.subrange(0, st.unpaired.len() as int) =~= st.unpaired);
    } else {
        let n = st.unpaired.len();
        lemma_indent_parens_fold_nested(st, parens.drop_last(), row);
        let u0 = indent_parens_fold(st, parens.drop_last(), row).unpaired;
        let k0 = open_kinds(Seq::empty(), parens.drop_last())->Some_0;
        let u = indent_parens_fold(st, parens, row).unpaired;
        let ks = open_kinds(Seq::empty(), parens)->Some_0;
        let p = parens.last();
        match p.side {
            Side::Opening => {
                assert(u == u0.push(p));
                assert(ks == k0.push(p.kind));
                assert(u.subrange(0, n as int) =~= u0.subrange(0, n as int));
                assert forall|t: int| 0 <= t < ks.len() implies #[trigger] u[n + t].kind == ks[t] by {
                    if t < k0.len() {
                        assert(u[n + t] == u0[n + t]);
                    }
                }
            },
            Side::Closing => {
                assert(k0.len() > 0 && k0.last() == p.kind);
                assert(u0[n + (k0.len() - 1)].kind == k0[k0.len() - 1]);
                assert(u0.last() == u0[n + (k0.len() - 1)]);
                assert(u == u0.drop_last());
                assert(ks == k0.drop_last());
                assert(u.subrange(0, n as int) =~= u0.subrange(0, n as int));
                assert forall|t: int| 0 <= t < ks.len() implies #[trigger] u[n + t].kind == ks[t] by {
                    assert(u[n + t] == u0[n + t]);
                }
            },
        }
    }
}

proof fn lemma_close_unpaired_keeps(st: IndentRunState, indent: Column, row: int)
    ensures
        close_unpaired(st, indent, row).paired == st.paired,
        close_unpaired(st, indent, row).deleted == st.deleted,
    decreases st.unpaired.len(),
{
    if st.unpaired.len() > 0 && indent <= st.unpaired.last().col {
        lemma_close_unpaired_keeps(
            IndentRunState {
                unpaired: st.unpaired.drop_last(),
                added: st.added.push((row - 1) as usize),
                ..st
            },
            indent,
            row,
        );
    }
}

/// Settling deletes only closing parens that were paired, and keeps every
/// pair it does not settle.
proof fn lemma_settle_paired_edits(st: IndentRunState, indent: Column, row: int)
    requires
        paired_at_line_end(st),
    ensures
        paired_at_line_end(settle_paired(st, indent, row)),
        forall|e: (usize, Paren)| #[trigger]
            settle_paired(st, indent, row).deleted.contains(e) ==> st.deleted.contains(e)
                || !e.1.mid_line,
    decreases st.paired.len(),
{
    if st.paired.len() > 0 && indent <= st.paired[0].0.col {
        let (lp, rp, rp_row) = st.paired[0];
        let rest = IndentRunState { paired: st.paired.drop_first(), ..st };
        assert(!st.paired[0].1.mid_line);
        assert(paired_at_line_end(rest)) by {
            assert forall|i: int| 0 <= i < rest.paired.len() implies !(
            #[trigger] rest.paired[i]).1.mid_line by {
                assert(rest.paired[i] == st.paired[i + 1]);
            }
        }
        if row - 1 != rp_row {
            let next = IndentRunState {
                deleted: rest.deleted.push((rp_row, rp)),
                added: rest.added.push((row - 1) as usize),
                ..rest
            };
            lemma_settle_paired_edits(next, indent, row);
            assert forall|e: (usize, Paren)| #[trigger] next.deleted.contains(e) implies st.deleted.contains(
                e,
            ) || !e.1.mid_line by {
                let t = choose|t: int| 0 <= t < next.deleted.len() && next.deleted[t] == e;
                if t < st.deleted.len() {
                    assert(st.deleted[t] == e);
                }
            }
        } else {
            lemma_settle_paired_edits(rest, indent, row);
        }
    }
}

/// What a run keeps from deleting a mid-line closing paren `p` of row `r`.
spec fn keeps_mid_line(st: IndentRunState, r: int, p: Paren) -> bool {
    &&& paired_at_line_end(st)
    &&& !st.deleted.contains((r as usize, p))
}

proof fn lemma_indent_fold_keeps_mid_line(lines: Seq<LineView>, r: int, i: int, j: int, k: int)
    requires
        lines.len() <= usize::MAX,
        0 <= r < lines.len(),
        0 <= i < j < lines[r].parens.len(),
        lines[r].parens[j].side is Closing,
        lines[r].parens[j].mid_line,
        lines[r].parens[i].side is Opening,
        lines[r].parens[i].kind == lines[r].parens[j].kind,
        open_kinds(Seq::empty(), lines[r].parens.subrange(i + 1, j)) == Some(Seq::<char>::empty()),
        forall|t: int|
            0 <= t < lines[r].parens.len() && t != j ==> lines[r].parens[t] != lines[r].parens[j],
        0 <= k <= lines.len(),
    ensures
        keeps_mid_line(indent_fold(lines.take(k)), r, lines[r].parens[j]),
    decreases k,
{
    let p = lines[r].parens[j];
    if k == 0 {
        assert(lines.take(0) =~= Seq::<LineView>::empty());
    } else {
        lemma_indent_fold_keeps_mid_line(lines, r, i, j, k - 1);
        let lk = lines.take(k);
        assert(lk.drop_last() =~= lines.take(k - 1));
        let prev = indent_fold(lines.take(k - 1));
        let line = lines[k - 1];
        let st1 = close_unpaired(prev, line.indent, k - 1);
        lemma_close_unpaired_keeps(prev, line.indent, k - 1);
        assert(paired_at_line_end(st1));
        let st2 = settle_paired(st1, line.indent, k - 1);
        lemma_settle_paired_edits(st1, line.indent, k - 1);
        assert(keeps_mid_line(st2, r, p));
        let ps = line.parens;
        assert(indent_fold(lk) == indent_parens_fold(st2, ps, k - 1));
        if k - 1 != r {
            lemma_indent_parens_fold_edits(st2, ps, k - 1);
            let fin = indent_parens_fold(st2, ps, k - 1);
            assert(!fin.deleted.contains((r as usize, p)));
        } else {
            let a = ps.take(i);
            let seg = ps.subrange(i + 1, j);
            let rest = ps.skip(j + 1);
            assert(ps =~= a + seq![ps[i]] + seg + seq![p] + rest);
            lemma_indent_parens_fold_concat(st2, a + seq![ps[i]] + seg + seq![p], rest, r);
            lemma_indent_parens_fold_concat(st2, a + seq![ps[i]] + seg, seq![p], r);
            lemma_indent_parens_fold_concat(st2, a + seq![ps[i]], seg, r);
            lemma_indent_parens_fold_concat(st2, a, seq![ps[i]], r);
            let sa = indent_parens_fold(st2, a, r);
            lemma_indent_parens_fold_edits(st2, a, r);
            assert(!sa.deleted.contains((r as usize, p))) by {
                if a.contains(p) {
                    let t = choose|t: int| 0 <= t < a.len() && a[t] == p;
                    assert(ps[t] == p);
                }
            }
            let sb = indent_parens_fold(sa, seq![ps[i]], r);
            assert(seq![ps[i]].drop_last() =~= Seq::<Paren>::empty());
            assert(indent_parens_fold(sa, seq![ps[i]].drop_last(), r) == sa);
            assert(seq![ps[i]].last() == ps[i]);
            assert(sb == indent_paren_step(sa, ps[i], r));
            assert(sb.unpaired == sa.unpaired.push(ps[i]));
            let sc = indent_parens_fold(sb, seg, r);
            lemma_indent_parens_fold_edits(sb, seg, r);
            lemma_indent_parens_fold_nested(sb, seg, r);
            assert(sc.unpaired =~= sb.unpaired.subrange(0, sb.unpaired.len() as int));
            assert(!sc.deleted.contains((r as usize, p))) by {
                if seg.contains(p) {
                    let t = choose|t: int| 0 <= t < seg.len() && seg[t] == p;
                    assert(ps[i + 1 + t] == p);
                }
            }
            let sd = indent_parens_fold(sc, seq![p], r);
            assert(seq![p].drop_last() =~= Seq::<Paren>::empty());
            assert(indent_parens_fold(sc, seq![p].drop_last(), r) == sc);
            assert(seq![p].last() == p);
            assert(sd == indent_paren_step(sc, p, r));
            assert(sd.deleted == sc.deleted);
            assert(sd.paired == sc.paired);
            let fin = indent_parens_fold(sd, rest, r);
            lemma_indent_parens_fold_edits(sd, rest, r);
            assert(!fin.deleted.contains((r as usize, p))) by {
                if rest.contains(p) {
                    let t = choose|t: int| 0 <= t < rest.len() && rest[t] == p;
                    assert(ps[j + 1 + t] == p);
                }
            }
        }
    }
}

/// Indent mode never deletes a closing paren that, with code after it on its
/// line, closes an opening paren of its own kind on that line (the parens
/// between the two balanced): such a pair is left as it is, whatever the
/// indentation of the lines around it. (A mid-line closing paren that closes
/// nothing, or a paren of another kind, is still deleted.)
pub proof fn lemma_indent_run_keeps_mid_line_pairs(lines: Seq<LineView>, r: int, i: int, j: int)
    requires
        lines.len() <= usize::MAX,
        0 <= r < lines.len(),
        0 <= i < j < lines[r].parens.len(),
        lines[r].parens[j].side is Closing,
        lines[r].parens[j].mid_line,
        lines[r].parens[i].side is Opening,
        lines[r].parens[i].kind == lines[r].parens[j].kind,
        open_kinds(Seq::empty(), lines[r].parens.subrange(i + 1, j)) == Some(Seq::<char>::empty()),
        forall|t: int|
            0 <= t < lines[r].parens.len() && t != j ==> lines[r].parens[t] != lines[r].parens[j],
    ensures
        !indent_result(lines).deleted.contains((r as usize, lines[r].parens[j])),
{
    let p = lines[r].parens[j];
    lemma_indent_fold_keeps_mid_line(lines, r, i, j, lines.len() as int);
    assert(lines.take(lines.len() as int) =~= lines);
    let st = indent_fold(lines);
    let n = lines.len() as int;
    lemma_close_unpaired_keeps(st, 0, n);
    let st1 = close_unpaired(st, 0, n);
    lemma_settle_paired_edits(st1, 0, n);
    assert(indent_result(lines) == settle_paired(st1, 0, n));
}

/// The opening parens left open after `parens`, innermost last, starting from
/// those of `stack`; `None` when a closing paren does not close an open paren
/// of its kind.
pub open spec fn open_parens(stack: Seq<Paren>, parens: Seq<Paren>) -> Option<Seq<Paren>>
    decreases parens.len(),
{
    if parens.len() == 0 {
        Some(stack)
    } else {
        match open_parens(stack, parens.drop_last()) {
            None => None,
            Some(s) => match parens.last().side {
                Side::Opening => Some(s.push(parens.last())),
                Side::Closing => {
                    if s.len() > 0 && s.last().kind == parens.last().kind {
                        Some(s.drop_last())
                    } else {
                        None
                    }
                },
            },
        }
    }
}

/// Row `r` stands right of the innermost paren that the rows before it left
/// open.
pub open spec fn row_inside(lines: Seq<LineView>, r: int) -> bool {
    let open = open_parens(Seq::empty(), all_parens(lines.take(r)))->Some_0;
    open.len() > 0 ==> open.last().col < lines[r].indent
}

/// Paren `j` of row `r`, where it is a closing paren with nothing but parens
/// after it, closes an opening paren that the next row does not stand right
/// of.
pub open spec fn row_closes_before_next(lines: Seq<LineView>, r: int, j: int) -> bool {
    let p = lines[r].parens[j];
    p.side is Closing && !p.mid_line ==> open_parens(
        Seq::empty(),
        all_parens(lines.take(r)) + lines[r].parens.take(j),
    )->Some_0.last().col >= lines[r + 1].indent
}

/// The parens of `lines` already agree with their indentation: each closing
/// paren closes an open paren of its kind and none is left open, each row
/// stands right of the paren left open before it, and no row stands right of
/// a paren closed at the end of the row before it.
pub open spec fn indent_consistent(lines: Seq<LineView>) -> bool {
    &&& open_parens(Seq::empty(), all_parens(lines)) == Some(Seq::<Paren>::empty())
    &&& forall|r: int| 0 < r < lines.len() ==> #[trigger] row_inside(lines, r)
    &&& forall|r: int, j: int|
        0 <= r < lines.len() - 1 && 0 <= j < lines[r].parens.len() ==> #[trigger] row_closes_before_next(
            lines,
            r,
            j,
        )
}

proof fn lemma_open_parens_concat(stack: Seq<Paren>, a: Seq<Paren>, b: Seq<Paren>)
    ensures
        open_parens(stack, a + b) == match open_parens(stack, a) {
            None => None,
            Some(t) => open_parens(t, b),
        },
    decreases b.len(),
{
    if b.len() == 0 {
        assert(a + b =~= a);
    } else {
        assert((a + b).drop_last() =~= a + b.drop_last());
        assert((a + b).last() == b.last());
        lemma_open_parens_concat(stack, a, b.drop_last());
    }
}

proof fn lemma_all_parens_concat(a: Seq<LineView>, b: Seq<LineView>)
    ensures
        all_parens(a + b) == all_parens(a) + all_parens(b),
    decreases b.len(),
{
    if b.len() == 0 {
        assert(a + b =~= a);
        assert(all_parens(a) + all_parens(b) =~= all_parens(a));
    } else {
        assert((a + b).drop_last() =~= a + b.drop_last());
        assert((a + b).last() == b.last());
        lemma_all_parens_concat(a, b.drop_last());
        assert(all_parens(a) + all_parens(b.drop_last()) + b.last().parens =~= all_parens(a) + (
        all_parens(b.drop_last()) + b.last().parens));
    }
}

/// Settling pairs whose opening parens a line does not stay right of, all
/// closed on the row before it, edits nothing and settles every pair.
proof fn lemma_settle_paired_in_place(st: IndentRunState, indent: Column, row: int)
    requires
        forall|i: int|
            0 <= i < st.paired.len() ==> #[trigger] st.paired[i].0.col >= indent && st.paired[i].2
                == row - 1,
    ensures
        settle_paired(st, indent, row) == (IndentRunState { paired: Seq::empty(), ..st }),
    decreases st.paired.len(),
{
    if st.paired.len() > 0 {
        let rest = IndentRunState { paired: st.paired.drop_first(), ..st };
        assert forall|i: int| 0 <= i < rest.paired.len() implies #[trigger] rest.paired[i].0.col
            >= indent && rest.paired[i].2 == row - 1 by {
            assert(rest.paired[i] == st.paired[i + 1]);
        }
        lemma_settle_paired_in_place(rest, indent, row);
    } else {
        assert(st.paired =~= Seq::<(Paren, Paren, usize)>::empty());
    }
}

/// Over parens that match, a line's parens edit nothing, leave open what
/// `open_parens` leaves open, and pair each closing paren at the end of the
/// line with an opening paren at or right of `bound` when every such closing
/// paren closes one.
proof fn lemma_indent_parens_fold_matched(st: IndentRunState, parens: Seq<Paren>, row: int, bound: Column)
    requires
        open_parens(st.unpaired, parens) is Some,
        forall|j: int|
            0 <= j < parens.len() && (#[trigger] parens[j]).side is Closing && !parens[j].mid_line
                ==> open_parens(st.unpaired, parens.take(j))->Some_0.last().col >= bound,
        forall|i: int|
            0 <= i < st.paired.len() ==> #[trigger] st.paired[i].0.col >= bound && st.paired[i].2
                == row as usize,
    ensures
        indent_parens_fold(st, parens, row).deleted == st.deleted,
        indent_parens_fold(st, parens, row).added == st.added,
        Some(indent_parens_fold(st, parens, row).unpaired) == open_parens(st.unpaired, parens),
        forall|i: int|
            0 <= i < indent_parens_fold(st, parens, row).paired.len() ==> #[trigger] indent_parens_fold(
                st,
                parens,
                row,
            ).paired[i].0.col >= bound && indent_parens_fold(st, parens, row).paired[i].2
                == row as usize,
    decreases parens.len(),
{
    if parens.len() > 0 {
        let n = parens.len() - 1;
        let pre = parens.drop_last();
        assert forall|j: int|
            0 <= j < pre.len() && (#[trigger] pre[j]).side is Closing && !pre[j].mid_line implies open_parens(
            st.unpaired,
            pre.take(j),
        )->Some_0.last().col >= bound by {
            assert(pre.take(j) =~= parens.take(j));
            assert(parens[j] == pre[j]);
        }
        lemma_indent_parens_fold_matched(st, pre, row, bound);
        let prev = indent_parens_fold(st, pre, row);
        let f = indent_parens_fold(st, parens, row);
        let p = parens.last();
        assert(parens.take(n) =~= pre);
        assert(parens[n] == p);
        assert forall|i: int| 0 <= i < f.paired.len() implies #[trigger] f.paired[i].0.col >= bound
            && f.paired[i].2 == row as usize by {
            if i < prev.paired.len() {
                assert(f.paired[i] == prev.paired[i]);
            }
        }
    }
}

/// What a run over consistent lines keeps after `k` of them.
spec fn consistent_run(lines: Seq<LineView>, k: int, st: IndentRunState) -> bool {
    &&& st.deleted.len() == 0
    &&& st.added.len() == 0
    &&& open_parens(Seq::empty(), all_parens(lines.take(k))) == Some(st.unpaired)
    &&& k == 0 ==> st.paired.len() == 0
    &&& forall|i: int|
        0 <= i < st.paired.len() ==> #[trigger] st.paired[i].2 == k - 1 && (k < lines.len()
            ==> st.paired[i].0.col >= lines[k].indent)
}

proof fn lemma_indent_fold_consistent(lines: Seq<LineView>, k: int)
    requires
        lines.len() <= usize::MAX,
        indent_consistent(lines),
        0 <= k <= lines.len(),
    ensures
        consistent_run(lines, k, indent_fold(lines.take(k))),
    decreases k,
{
    if k == 0 {
        assert(lines.take(0) =~= Seq::<LineView>::empty());
    } else {
        let r = k - 1;
        lemma_indent_fold_consistent(lines, r);
        let lk = lines.take(k);
        assert(lk.drop_last() =~= lines.take(r));
        assert(lk.last() == lines[r]);
        let st = indent_fold(lines.take(r));
        let line = lines[r];
        let ps = line.parens;
        let u = st.unpaired;
        assert(all_parens(lk) == all_parens(lines.take(r)) + ps);
        // the parens of the first `k` lines match
        lemma_all_parens_concat(lk, lines.skip(k));
        assert(lk + lines.skip(k) =~= lines);
        lemma_open_parens_concat(Seq::empty(), all_parens(lk), all_parens(lines.skip(k)));
        lemma_open_parens_concat(Seq::empty(), all_parens(lines.take(r)), ps);
        // nothing closes before the row
        if r > 0 {
            assert(row_inside(lines, r));
        }
        assert(close_unpaired(st, line.indent, r) == st);
        assert forall|i: int| 0 <= i < st.paired.len() implies #[trigger] st.paired[i].0.col
            >= line.indent && st.paired[i].2 == r - 1 by {
            assert(st.paired[i].2 == r - 1);
        }
        lemma_settle_paired_in_place(st, line.indent, r);
        let st2 = IndentRunState { paired: Seq::empty(), ..st };
        assert(settle_paired(st, line.indent, r) == st2);
        let bound: Column = if k < lines.len() {
            lines[k].indent
        } else {
            0
        };
        assert forall|j: int|
            0 <= j < ps.len() && (#[trigger] ps[j]).side is Closing && !ps[j].mid_line implies open_parens(
            st2.unpaired,
            ps.take(j),
        )->Some_0.last().col >= bound by {
            if k < lines.len() {
                assert(row_closes_before_next(lines, r, j));
                lemma_open_parens_concat(Seq::empty(), all_parens(lines.take(r)), ps.take(j));
            }
        }
        lemma_indent_parens_fold_matched(st2, ps, r, bound);
        assert(indent_fold(lk) == indent_parens_fold(st2, ps, r));
        let f = indent_fold(lk);
        assert(f.deleted.len() == 0);
        assert(f.added.len() == 0);
        assert(open_parens(Seq::empty(), all_parens(lk)) == Some(f.unpaired));
        assert forall|i: int| 0 <= i < f.paired.len() implies #[trigger] f.paired[i].2 == k - 1 && (k
            < lines.len() ==> f.paired[i].0.col >= lines[k].indent) by {
            assert(f.paired[i].0.col >= bound && f.paired[i].2 == r as usize);
        }
    }
}

/// Indent mode leaves text whose parens already agree with its indentation as
/// it is: it deletes no closing paren and appends none. In particular an open
/// paren is closed only before a line at or left of its column, never before a
/// line that stands right of it.
pub proof fn lemma_indent_run_consistent_unchanged(lines: Seq<LineView>)
    requires
        lines.len() <= usize::MAX,
        indent_consistent(lines),
    ensures
        indent_result(lines).deleted.len() == 0,
        indent_result(lines).added.len() == 0,
{
    let n = lines.len() as int;
    lemma_indent_fold_consistent(lines, n);
    assert(lines.take(n) =~= lines);
    let st = indent_fold(lines);
    assert(st.unpaired.len() == 0);
    assert(close_unpaired(st, 0, n) == st);
    assert forall|i: int| 0 <= i < st.paired.len() implies #[trigger] st.paired[i].0.col >= 0
        && st.paired[i].2 == n - 1 by {
        assert(st.paired[i].2 == n - 1);
    }
    lemma_settle_paired_in_place(st, 0, n);
    assert(indent_result(lines) == indent_parens_fold(
        IndentRunState { paired: Seq::empty(), ..st },
        Seq::empty(),
        n,
    ));
}

/// An indent-mode state with every paren moved `k` columns right.
pub open spec fn move_indent_state(st: IndentRunState, k: usize) -> IndentRunState {
    IndentRunState {
        unpaired: st.unpaired.map_values(|p: Paren| move_paren(p, k)),
        paired: st.paired.map_values(
            |e: (Paren, Paren, usize)| (move_paren(e.0, k), move_paren(e.1, k), e.2),
        ),
        deleted: st.deleted.map_values(|e: (usize, Paren)| (e.0, move_paren(e.1, k))),
        added: st.added,
    }
}

/// The parens on the stacks of a run can be moved `k` columns right.
spec fn stacks_can_move(st: IndentRunState, k: usize) -> bool {
    &&& forall|i: int| 0 <= i < st.unpaired.len() ==> #[trigger] st.unpaired[i].col + k <= usize::MAX
    &&& forall|i: int| 0 <= i < st.paired.len() ==> #[trigger] st.paired[i].0.col + k <= usize::MAX
}

/// Two indentations that compare with columns alike, one in the moved lines.
spec fn moved_indent(i1: Column, i2: Column, k: usize) -> bool {
    i2 == i1 + k || (i1 == 0 && i2 == 0)
}

proof fn lemma_close_unpaired_moved(st: IndentRunState, i1: Column, i2: Column, row: int, k: usize)
    requires
        stacks_can_move(st, k),
        moved_indent(i1, i2, k),
    ensures
        close_unpaired(move_indent_state(st, k), i2, row) == move_indent_state(
            close_unpaired(st, i1, row),
            k,
        ),
        stacks_can_move(close_unpaired(st, i1, row), k),
    decreases st.unpaired.len(),
{
    let m = move_indent_state(st, k);
    if st.unpaired.len() > 0 {
        assert(m.unpaired.last() == move_paren(st.unpaired.last(), k));
        assert(st.unpaired.last().col + k <= usize::MAX);
    }
    if st.unpaired.len() > 0 && i1 <= st.unpaired.last().col {
        let next = IndentRunState {
            unpaired: st.unpaired.drop_last(),
            added: st.added.push((row - 1) as usize),
            ..st
        };
        assert(move_indent_state(next, k) =~= IndentRunState {
            unpaired: m.unpaired.drop_last(),
            added: m.added.push((row - 1) as usize),
            ..m
        });
        assert(stacks_can_move(next, k)) by {
            assert forall|i: int| 0 <= i < next.unpaired.len() implies #[trigger] next.unpaired[i].col
                + k <= usize::MAX by {
                assert(next.unpaired[i] == st.unpaired[i]);
            }
        }
        lemma_close_unpaired_moved(next, i1, i2, row, k);
    }
}

proof fn lemma_settle_paired_moved(st: IndentRunState, i1: Column, i2: Column, row: int, k: usize)
    requires
        stacks_can_move(st, k),
        moved_indent(i1, i2, k),
    ensures
        settle_paired(move_indent_state(st, k), i2, row) == move_indent_state(
            settle_paired(st, i1, row),
            k,
        ),
        stacks_can_move(settle_paired(st, i1, row), k),
    decreases st.paired.len(),
{
    let m = move_indent_state(st, k);
    if st.paired.len() > 0 {
        assert(m.paired[0] == (move_paren(st.paired[0].0, k), move_paren(st.paired[0].1, k), st.paired[0].2));
        assert(st.paired[0].0.col + k <= usize::MAX);
    }
    if st.paired.len() > 0 && i1 <= st.paired[0].0.col {
        let (lp, rp, rp_row) = st.paired[0];
        let rest = IndentRunState { paired: st.paired.drop_first(), ..st };
        let mrest = IndentRunState { paired: m.paired.drop_first(), ..m };
        assert(move_indent_state(rest, k) =~= mrest);
        assert(stacks_can_move(rest, k)) by {
            assert forall|i: int| 0 <= i < rest.paired.len() implies #[trigger] rest.paired[i].0.col
                + k <= usize::MAX by {
                assert(rest.paired[i] == st.paired[i + 1]);
            }
        }
        if row - 1 != rp_row {
            let next = IndentRunState {
                deleted: rest.deleted.push((rp_row, rp)),
                added: rest.added.push((row - 1) as usize),
                ..rest
            };
            assert(move_indent_state(next, k) =~= IndentRunState {
                deleted: mrest.deleted.push((rp_row, move_paren(rp, k))),
                added: mrest.added.push((row - 1) as usize),
                ..mrest
            });
            lemma_settle_paired_moved(next, i1, i2, row, k);
        } else {
            lemma_settle_paired_moved(rest, i1, i2, row, k);
        }
    }
}

proof fn lemma_indent_parens_moved(st: IndentRunState, parens: Seq<Paren>, row: int, k: usize)
    requires
        stacks_can_move(st, k),
        forall|j: int| 0 <= j < parens.len() ==> #[trigger] parens[j].col + k <= usize::MAX,
    ensures
        indent_parens_fold(
            move_indent_state(st, k),
            parens.map_values(|p: Paren| move_paren(p, k)),
            row,
        ) == move_indent_state(indent_parens_fold(st, parens, row), k),
        stacks_can_move(indent_parens_fold(st, parens, row), k),
    decreases parens.len(),
{
    let moved = parens.map_values(|p: Paren| move_paren(p, k));
    if parens.len() > 0 {
        let prev = parens.drop_last();
        assert(moved.drop_last() =~= prev.map_values(|p: Paren| move_paren(p, k)));
        assert forall|j: int| 0 <= j < prev.len() implies #[trigger] prev[j].col + k
            <= usize::MAX by {
            assert(prev[j] == parens[j]);
        }
        lemma_indent_parens_moved(st, prev, row, k);
        let s1 = indent_parens_fold(st, prev, row);
        let m1 = move_indent_state(s1, k);
        let p = parens.last();
        assert(moved.last() == move_paren(p, k));
        assert(p.col + k <= usize::MAX);
        let s2 = indent_paren_step(s1, p, row);
        if s1.unpaired.len() > 0 {
            assert(m1.unpaired.last() == move_paren(s1.unpaired.last(), k));
        }
        assert(indent_paren_step(m1, move_paren(p, k), row) =~= move_indent_state(s2, k));
        assert(stacks_can_move(s2, k)) by {
            assert forall|i: int| 0 <= i < s2.unpaired.len() implies #[trigger] s2.unpaired[i].col
                + k <= usize::MAX by {
                if i < s1.unpaired.len() {
                    assert(s2.unpaired[i] == s1.unpaired[i]);
                }
            }
            assert forall|i: int| 0 <= i < s2.paired.len() implies #[trigger] s2.paired[i].0.col
                + k <= usize::MAX by {
                if i < s1.paired.len() {
                    assert(s2.paired[i] == s1.paired[i]);
                } else {
                    assert(s2.paired[i].0 == s1.unpaired.last());
                }
            }
        }
    }
}

proof fn lemma_indent_fold_moved(lines: Seq<LineView>, k: usize)
    requires
        can_move(lines, k),
    ensures
        indent_fold(move_lines(lines, k)) == move_indent_state(indent_fold(lines), k),
        stacks_can_move(indent_fold(lines), k),
    decreases lines.len(),
{
    if lines.len() == 0 {
        assert(move_indent_state(indent_run_start(), k) =~= indent_run_start());
    } else {
        lemma_move_lines_drop_last(lines, k);
        lemma_indent_fold_moved(lines.drop_last(), k);
        let st = indent_fold(lines.drop_last());
        let line = lines.last();
        assert(line == lines[lines.len() - 1]);
        let i1 = line.indent;
        let i2 = (line.indent + k) as usize;
        let row = lines.len() - 1;
        lemma_close_unpaired_moved(st, i1, i2, row, k);
        let s1 = close_unpaired(st, i1, row);
        lemma_settle_paired_moved(s1, i1, i2, row, k);
        let s2 = settle_paired(s1, i1, row);
        lemma_indent_parens_moved(s2, line.parens, row, k);
    }
}

/// Moving every indentation and every paren of the lines `k` columns right
/// changes nothing in indent mode but the columns of the parens it deletes.
pub proof fn lemma_indent_run_moved(lines: Seq<LineView>, k: usize)
    requires
        can_move(lines, k),
    ensures
        indent_result(move_lines(lines, k)).added == indent_result(lines).added,
        indent_result(move_lines(lines, k)).deleted == indent_result(lines).deleted.map_values(
            |e: (usize, Paren)| (e.0, move_paren(e.1, k)),
        ),
{
    lemma_indent_fold_moved(lines, k);
    let st = indent_fold(lines);
    let n = lines.len() as int;
    assert(move_lines(lines, k).len() == n);
    lemma_close_unpaired_moved(st, 0, 0, n, k);
    let s1 = close_unpaired(st, 0, n);
    lemma_settle_paired_moved(s1, 0, 0, n, k);
    let s2 = settle_paired(s1, 0, n);
    lemma_indent_parens_moved(s2, Seq::empty(), n, k);
    assert(Seq::<Paren>::empty().map_values(|p: Paren| move_paren(p, k)) =~= Seq::<Paren>::empty());
}

struct IndentRun {
    unpaired_lparen: Vec<Paren>,
    paired: VecDeque<(Paren, Paren, usize)>,
    to_be_deleted: Vec<(usize, Paren)>,
    to_be_added: Vec<usize>,
}

impl View for IndentRun {
    type V = IndentRunState;

    closed spec fn view(&self) -> IndentRunState {
        IndentRunState {
            unpaired: self.unpaired_lparen@,
            paired: self.paired@,
            deleted: self.to_be_deleted@,
            added: self.to_be_added@,
        }
    }
}

impl IndentRun {
    fn row_step(&mut self, parens: &Vec<Paren>, indent: Column, row: usize)
        requires
            row == 0 ==> old(self)@.unpaired.len() == 0 && old(self)@.paired.len() == 0,
        ensures
            final(self)@ == indent_row_step(old(self)@, parens@, indent, row as int),
    {
        let ghost st0 = self@;
        // iterate over unpaired left-parens, push a paren to the last line if current line indents
        // further than lparen itself.
        while self.unpaired_lparen.len() > 0 && indent <= self.unpaired_lparen[self.unpaired_lparen.len() - 1].col
            invariant
                row == 0 ==> self@.unpaired.len() == 0 && self@.paired.len() == 0,
                close_unpaired(self@, indent, row as int) == close_unpaired(st0, indent, row as int),
            decreases self.unpaired_lparen.len(),
        {
            self.to_be_added.push(row - 1);
            self.unpaired_lparen.pop();
        }
        let ghost st1 = self@;
        // iterate over paired parens
        while self.paired.len() > 0 && indent <= self.paired[0].0.col
            invariant
                row == 0 ==> self@.paired.len() == 0,
                settle_paired(self@, indent, row as int) == settle_paired(st1, indent, row as int),
            decreases self.paired.len(),
        {
            let (lp, rp, rp_row) = self.paired[0];
            if row - 1 != rp_row {
                self.to_be_added.push(row - 1);
                self.to_be_deleted.push((rp_row, rp));
            }
            self.paired.pop_front();
        }
        let ghost st2 = self@;
        let mut i: usize = 0;
        while i < parens.len()
            invariant
                i <= parens.len(),
                indent_parens_fold(st2, parens@.take(i as int), row as int) == self@,
            decreases parens.len() - i,
        {
            let p = parens[i];
            proof {
                assert(parens@.take(i + 1).drop_last() =~= parens@.take(i as int));
            }
            match p.side {
                Side::Opening => {
                    self.unpaired_lparen.push(p);
                },
                Side::Closing => {
                    let popped = self.unpaired_lparen.pop();
                    match popped {
                        Some(lp) => {
                            if lp.kind == p.kind {
                                if !p.mid_line {
                                    self.paired.push_back((lp, p, row));
                                }
                            } else {
                                self.to_be_deleted.push((row, p));
                            }
                        },
                        None => {
                            self.to_be_deleted.push((row, p));
                        },
                    }
                },
            }
            i += 1;
        }
        proof {
            assert(parens@.take(parens.len() as int) =~= parens@);
        }
    }
}

/// An implementation of "indent mode" in Parinfer: infers the closing parens
/// from the indentation. Returns the closing parens to delete, with their rows,
/// and the rows at whose end a closing paren is to be appended.
pub fn indent_run(input: &[Line]) -> (res: (Vec<(usize, Paren)>, Vec<usize>))
    ensures
        res.0@ == indent_result(lines_view(input@)).deleted,
        res.1@ == indent_result(lines_view(input@)).added,
        forall|i: int|
            0 <= i < res.0@.len() ==> #[trigger] closing_paren_of(
                lines_view(input@),
                res.0@[i].0 as int,
                res.0@[i].1,
            ),
        forall|i: int| 0 <= i < res.1@.len() ==> #[trigger] res.1@[i] < input.len(),
{
    let ghost lines = lines_view(input@);
    let mut run = IndentRun {
        unpaired_lparen: Vec::new(),
        paired: VecDeque::new(),
        to_be_deleted: Vec::new(),
        to_be_added: Vec::new(),
    };
    let mut row: usize = 0;
    while row < input.len()
        invariant
            lines == lines_view(input@),
            row <= input.len(),
            run@ == indent_fold(lines.take(row as int)),
            row == 0 ==> run@ == indent_run_start(),
        decreases input.len() - row,
    {
        proof {
            assert(lines.take(row + 1).drop_last() =~= lines.take(row as int));
        }
        run.row_step(&input[row].parens, input[row].indent, row);
        row += 1;
    }
    proof {
        assert(lines.take(input.len() as int) =~= lines);
    }
    // the line after the last one
    let no_parens: Vec<Paren> = Vec::new();
    run.row_step(&no_parens, 0, input.len());
    proof {
        lemma_indent_edits_within(lines);
        assert(lines.len() == input.len());
        let result = indent_result(lines);
        assert(run.to_be_deleted@ == result.deleted);
        assert(run.to_be_added@ == result.added);
        assert forall|i: int| 0 <= i < run.to_be_deleted@.len() implies #[trigger] closing_paren_of(
            lines,
            run.to_be_deleted@[i].0 as int,
            run.to_be_deleted@[i].1,
        ) by {
            assert(closing_paren_of(lines, result.deleted[i].0 as int, result.deleted[i].1));
        }
        assert forall|i: int| 0 <= i < run.to_be_added@.len() implies #[trigger] run.to_be_added@[i]
            < input.len() by {
            assert(result.added[i] < lines.len());
        }
    }
    (run.to_be_deleted, run.to_be_added)
}

} // verus!
