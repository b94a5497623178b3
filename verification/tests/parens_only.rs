use std::collections::HashMap;

use neoparinfer::parens_only::{indent_run, paren_run, paren_run_checked, Delta, Error, Line, Paren, Side};

fn simple_parse(input: &str) -> Vec<Line> {
    input
        .lines()
        .map(|input_line| {
            let trimmed = input_line.trim_start_matches(' ');
            let indent = input_line.len() - trimmed.len();
            let mut parens: Vec<Paren> = Vec::new();
            for (col, c) in input_line.chars().enumerate() {
                let side = match c {
                    '(' => Side::Opening,
                    ')' => Side::Closing,
                    _ => {
                        if let Some(p) = parens.last_mut() {
                            p.mid_line = true;
                        }
                        continue;
                    }
                };
                parens.push(Paren {
                    kind: '(',
                    col,
                    side,
                    mid_line: false,
                })
            }
            Line { parens, indent }
        })
        .collect()
}

fn apply_indent_changes(input: &str, changes: &HashMap<usize, Delta>) -> String {
    let mut result = String::new();
    for (i, l) in input.lines().enumerate() {
        let delta = changes.get(&i).copied().unwrap_or(0);
        if delta < 0 {
            result.push_str(&l[delta.unsigned_abs()..]);
        } else {
            result.push_str(&" ".repeat(delta as usize));
            result.push_str(l);
        }
        result.push('\n');
    }
    result.pop();
    result
}

fn fix_by_paren(input: &str) -> String {
    let changes = paren_run(&simple_parse(input)).unwrap();
    apply_indent_changes(input, &changes)
}

#[test]
fn test_simple_parse() {
    assert_eq!(
        format!("{:#?}\n", simple_parse("(a)")),
        r#"[
    Line {
        parens: [
            Paren {
                col: 0,
                kind: '(',
                side: Opening,
                mid_line: true,
            },
            Paren {
                col: 2,
                kind: '(',
                side: Closing,
                mid_line: false,
            },
        ],
        indent: 0,
    },
]
"#
    );

    assert_eq!(
        format!("{:#?}\n", simple_parse(" a")),
        r#"[
    Line {
        parens: [],
        indent: 1,
    },
]
"#
    );

    assert_eq!(
        format!(
            "{:#?}\n",
            simple_parse(
                r"(
 )",
            )
        ),
        r#"[
    Line {
        parens: [
            Paren {
                col: 0,
                kind: '(',
                side: Opening,
                mid_line: false,
            },
        ],
        indent: 0,
    },
    Line {
        parens: [
            Paren {
                col: 1,
                kind: '(',
                side: Closing,
                mid_line: false,
            },
        ],
        indent: 1,
    },
]
"#
    );
}

#[test]
fn test_paren_mode() {
    let input = "()";
    assert_eq!(fix_by_paren(input), "()");

    let input = r"(
)";
    assert_eq!(fix_by_paren(input), "(\n )");

    let input = r"
(
a b
 c)"
    .trim_start();
    assert_eq!(fix_by_paren(input), "(\n a b\n c)");

    let input = r"
(im a haskell user (who prefer
    (code like this)
))"
    .trim_start();
    assert_eq!(
        fix_by_paren(input),
        "(im a haskell user (who prefer
                    (code like this)
                    ))"
    );

    let input = r"
(
(
)
)"
    .trim_start();
    assert_eq!(fix_by_paren(input), "(\n (\n  )\n )");

    let input = r"
(im a c user (
    who prefer
 (
   code like this
 )
))"
    .trim_start();
    assert_eq!(
        fix_by_paren(input),
        "(im a c user (
              who prefer
              (
                code like this
               )
              ))"
    );

    let input = r"
(defn foo
  ((a)
    (foo a 1))
  ((a b)
    (let (sum (+ a b)
          prod (* a b)
          result ( ; gather vals
            :sum sum
            :prod prod
          ))
      result)
    ; TODO: something
    ))"
    .trim_start();
    assert_eq!(
        fix_by_paren(input),
        "(defn foo
  ((a)
   (foo a 1))
  ((a b)
   (let (sum (+ a b)
         prod (* a b)
         result ( ; gather vals
                 :sum sum
                 :prod prod
                 ))
     result)
   ; TODO: something
   ))"
    );
}

#[test]
fn first_sibling_not_enough() {
    let input = r"
(    (a b)
  (c d)
    e
 )"
    .trim_start();
    assert_eq!(fix_by_paren(input), "(    (a b)\n  (c d)\n  e\n )");

    let input = r"
((a) (b)
     (c d)
     e)"
    .trim_start();
    assert_eq!(fix_by_paren(input), "((a) (b)\n     (c d)\n     e)");
}

#[test]
fn pull_back() {
    let input = r"
()
 b"
    .trim_start();
    assert_eq!(fix_by_paren(input), "()\nb");

    let input = r"
(a (b) c
       d)"
    .trim_start();
    assert_eq!(fix_by_paren(input), "(a (b) c\n       d)");

    let input = r"
(a (b)
     c
       d)"
    .trim_start();
    assert_eq!(fix_by_paren(input), "(a (b)\n   c\n   d)");
}

fn apply_paren_changes(input: &str, changes: &(Vec<(usize, Paren)>, Vec<usize>)) -> String {
    let mut result = Vec::new();
    let (del, add) = changes;
    for (row, line) in input.lines().enumerate() {
        let mut line = line.to_owned();
        let mut to_remove = Vec::new();
        for (r, p) in del.iter().rev() {
            if *r == row {
                to_remove.push(p.col);
            }
        }
        to_remove.sort_unstable();
        to_remove.iter().rev().for_each(|i| {
            line.remove(*i);
        });
        let count_append = add.iter().filter(|&&r| r == row).count();
        line.push_str(&")".repeat(count_append));
        result.push(line);
    }
    result.join("\n")
}

fn fix_by_indent(input: &str) -> String {
    apply_paren_changes(input, &indent_run(&simple_parse(input)))
}

#[test]
fn test_indent_mode() {
    let input = "()";
    assert_eq!(fix_by_indent(input), "()");

    let input = "(";
    assert_eq!(fix_by_indent(input), "()");

    let input = "())";
    assert_eq!(fix_by_indent(input), "()");

    let input = "(well (known fact
  (lisp
    (is)
      indentation
      based
";
    assert_eq!(
        fix_by_indent(input),
        "(well (known fact)
  (lisp
    (is
      indentation
      based)))"
    );

    let input = "(paired
  (paired))
 (move this)
";
    assert_eq!(
        fix_by_indent(input),
        "(paired
  (paired)
 (move this))"
    );
}

fn paren(col: usize, kind: char, side: Side, mid_line: bool) -> Paren {
    Paren { col, kind, side, mid_line }
}

#[test]
fn paren_run_reports_unmatched_closing_paren() {
    assert!(matches!(paren_run(&simple_parse(")")), Err(Error::Unbalanced)));
    assert!(matches!(paren_run(&simple_parse("()\n)")), Err(Error::Unbalanced)));
    // a closing paren of another kind does not close
    let lines = vec![Line {
        parens: vec![
            paren(0, '(', Side::Opening, true),
            paren(2, '[', Side::Closing, false),
        ],
        indent: 0,
    }];
    assert!(matches!(paren_run(&lines), Err(Error::Unbalanced)));
}

#[test]
fn paren_run_accepts_unclosed_parens() {
    let changes = paren_run(&simple_parse("(a\n(b")).unwrap();
    assert_eq!(changes.len(), 1);
    assert_eq!(changes.get(&1), Some(&1));
}

#[test]
fn paren_run_on_no_lines() {
    assert!(paren_run(&[]).unwrap().is_empty());
}

#[test]
fn paren_run_changes_only_existing_rows() {
    let input = "(a\nb\n   (c\nd))";
    let lines = simple_parse(input);
    let changes = paren_run(&lines).unwrap();
    assert!(!changes.is_empty());
    for (row, delta) in &changes {
        assert!(*row < lines.len());
        assert_ne!(*delta, 0);
    }
    assert_eq!(changes.get(&1), Some(&1));
    assert_eq!(changes.get(&3), Some(&4));
}

#[test]
fn paren_run_is_idempotent() {
    let inputs = [
        "(\na b\n c)",
        "(im a c user (\n    who prefer\n (\n   code like this\n )\n))",
        "(    (a b)\n  (c d)\n    e\n )",
        "(a (b)\n     c\n       d)",
    ];
    for input in inputs {
        let fixed = fix_by_paren(input);
        assert!(paren_run(&simple_parse(&fixed)).unwrap().is_empty());
        assert_eq!(fix_by_paren(&fixed), fixed);
    }
}

fn count_sides(lines: &[Line]) -> (usize, usize) {
    let mut opening = 0;
    let mut closing = 0;
    for line in lines {
        for p in &line.parens {
            match p.side {
                Side::Opening => opening += 1,
                Side::Closing => closing += 1,
            }
        }
    }
    (opening, closing)
}

#[test]
fn indent_run_balances_parens() {
    let inputs = [
        "(",
        "())",
        "(well (known fact\n  (lisp\n    (is)\n      indentation\n      based\n",
        "(paired\n  (paired))\n (move this)\n",
        ")) (a\n b))\n(",
    ];
    for input in inputs {
        let lines = simple_parse(input);
        let (deleted, added) = indent_run(&lines);
        let (opening, closing) = count_sides(&lines);
        assert_eq!(opening + deleted.len(), closing + added.len());
        let fixed = fix_by_indent(input);
        let (opening, closing) = count_sides(&simple_parse(&fixed));
        assert_eq!(opening, closing);
    }
}

#[test]
fn indent_run_edits_stay_in_the_input() {
    let input = ")) (a\n b))\n  (c";
    let lines = simple_parse(input);
    let (deleted, added) = indent_run(&lines);
    assert!(!deleted.is_empty());
    for (row, p) in &deleted {
        assert!(*row < lines.len());
        assert!(matches!(p.side, Side::Closing));
        assert!(lines[*row].parens.iter().any(|q| q.col == p.col));
    }
    assert!(!added.is_empty());
    for row in &added {
        assert!(*row < lines.len());
    }
    assert_eq!(fix_by_indent(input), " (a)\n b\n  (c)");
}

#[test]
fn indent_run_on_no_lines() {
    let (deleted, added) = indent_run(&[]);
    assert!(deleted.is_empty());
    assert!(added.is_empty());
}

#[test]
fn indent_run_drops_mismatched_pair() {
    // a closing paren of another kind is deleted, and its opening paren is
    // dropped with it
    let lines = vec![Line {
        parens: vec![
            paren(0, '(', Side::Opening, true),
            paren(2, ']', Side::Closing, false),
        ],
        indent: 0,
    }];
    let (deleted, added) = indent_run(&lines);
    assert_eq!(deleted.len(), 1);
    assert_eq!(deleted[0].0, 0);
    assert_eq!(deleted[0].1.col, 2);
    assert!(added.is_empty());
}

#[test]
fn paren_run_checked_reports_overflow() {
    let lines = vec![
        Line { parens: vec![paren(usize::MAX, '(', Side::Opening, false)], indent: 0 },
        Line { parens: vec![], indent: 0 },
    ];
    assert!(paren_run_checked(&lines).is_none());
    let lines = simple_parse("(a\nb)");
    let changes = paren_run_checked(&lines).unwrap().unwrap();
    assert_eq!(changes.get(&1), Some(&1));
    assert!(matches!(paren_run_checked(&simple_parse(")")), Some(Err(Error::Unbalanced))));
}

fn move_right(lines: &[Line], k: usize) -> Vec<Line> {
    lines
        .iter()
        .map(|l| Line {
            parens: l.parens.iter().map(|p| Paren { col: p.col + k, ..*p }).collect(),
            indent: l.indent + k,
        })
        .collect()
}

#[test]
fn paren_run_ignores_moving_right() {
    for input in ["(im a c user (\n    who prefer\n (\n   code like this\n )\n))", "(a (b)\n     c\n       d)", "()\n)"] {
        let lines = simple_parse(input);
        let moved = move_right(&lines, 7);
        match (paren_run(&lines), paren_run(&moved)) {
            (Ok(a), Ok(b)) => assert_eq!(a, b),
            (Err(Error::Unbalanced), Err(Error::Unbalanced)) => {}
            _ => panic!("results differ"),
        }
    }
}

#[test]
fn indent_run_ignores_moving_right() {
    let input = "(well (known fact\n  (lisp\n    (is)\n      indentation\n      based\n";
    let lines = simple_parse(input);
    let (deleted, added) = indent_run(&lines);
    let (deleted_moved, added_moved) = indent_run(&move_right(&lines, 5));
    assert_eq!(added, added_moved);
    assert_eq!(deleted.len(), deleted_moved.len());
    for ((r1, p1), (r2, p2)) in deleted.iter().zip(deleted_moved.iter()) {
        assert_eq!(r1, r2);
        assert_eq!(p1.col + 5, p2.col);
    }
}
