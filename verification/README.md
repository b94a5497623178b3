# neoparinfer

Parinfer's two runs over a reduced view of the text, verified with Verus.

- `src/parens_only.rs`: a line is its indentation and its parens.
  `paren_run` (paren mode) computes the indentation change of each line;
  `indent_run` (indent mode) computes the closing parens to delete and the
  rows at whose end a closing paren is to be appended. Each is specified by a
  fold over the lines, and the module proves that paren mode fails exactly on
  unmatched closing parens, is idempotent when the indentations fit in
  `isize`, and is unchanged when everything moves right; and that indent mode
  edits only existing closing parens and rows, is unchanged when everything
  moves right (but for the deleted parens' columns) and, with one kind of
  paren, leaves the parens balanced in number.
- `src/lib.rs`: `ReaderState::read` reads text into a tree of lists and atoms,
  each with the row and display column where it starts; a new reader fails
  exactly on a closing paren that closes nothing, and `try_read` reports it.
- `src/text.rs`: lines, UTF-8 offsets and display width of text.
- `src/legacy.rs`: per-line state of a character-by-character pass.
