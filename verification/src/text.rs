//! Lines, characters and byte offsets of text, and the display width of text.
use unicode_width::UnicodeWidthStr;
use vstd::prelude::*;

verus! {

/// The number of bytes that UTF-8 takes for `c`.
pub open spec fn char_utf8_len(c: char) -> nat {
    if (c as u32) < 0x80 {
        1
    } else if (c as u32) < 0x800 {
        2
    } else if (c as u32) < 0x10000 {
        3
    } else {
        4
    }
}

/// The number of bytes of `s` in UTF-8.
pub open spec fn utf8_len(s: Seq<char>) -> nat
    decreases s.len(),
{
    if s.len() == 0 {
        0
    } else {
        char_utf8_len(s[0]) + utf8_len(s.drop_first())
    }
}

pub proof fn lemma_utf8_len_concat(a: Seq<char>, b: Seq<char>)
    ensures
        utf8_len(a + b) == utf8_len(a) + utf8_len(b),
    decreases a.len(),
{
    if a.len() == 0 {
        assert(a + b =~= b);
    } else {
        assert((a + b).drop_first() =~= a.drop_first() + b);
        lemma_utf8_len_concat(a.drop_first(), b);
    }
}

/// A stretch of text takes no more bytes than the text it is taken from.
pub proof fn lemma_utf8_len_subrange(s: Seq<char>, i: int, j: int)
    requires
        0 <= i <= j <= s.len(),
    ensures
        utf8_len(s.subrange(i, j)) <= utf8_len(s),
        utf8_len(s.take(j)) == utf8_len(s.take(i)) + utf8_len(s.subrange(i, j)),
{
    assert(s =~= s.take(i) + s.subrange(i, j) + s.skip(j));
    lemma_utf8_len_concat(s.take(i) + s.subrange(i, j), s.skip(j));
    lemma_utf8_len_concat(s.take(i), s.subrange(i, j));
    assert(s.take(j) =~= s.take(i) + s.subrange(i, j));
}

/// The number of UTF-8 bytes of `chars`, when it fits in `usize`.
pub(crate) fn utf8_len_checked(chars: &Vec<char>) -> (r: Option<usize>)
    ensures
        match r {
            Some(n) => n == utf8_len(chars@),
            None => utf8_len(chars@) > usize::MAX,
        },
{
    let mut total: usize = 0;
    let mut k: usize = 0;
    assert(chars@.take(0) =~= Seq::<char>::empty());
    while k < chars.len()
        invariant
            k <= chars.len(),
            total == utf8_len(chars@.take(k as int)),
        decreases chars.len() - k,
    {
        let c = chars[k];
        proof {
            lemma_utf8_len_subrange(chars@, k as int, k + 1);
            lemma_utf8_len_subrange(chars@, 0, k + 1);
            assert(chars@.subrange(k as int, k + 1) =~= seq![c]);
            assert(chars@.take(k + 1) =~= chars@.subrange(0, k + 1));
            assert(utf8_len(seq![c]) == char_utf8_len(c)) by {
                assert(seq![c][0] == c);
                assert(seq![c].drop_first() =~= Seq::<char>::empty());
                reveal_with_fuel(utf8_len, 2);
            }
        }
        let n = len_utf8(c);
        if total > usize::MAX - n {
            proof {
                lemma_utf8_len_subrange(chars@, 0, k + 1);
                lemma_utf8_len_subrange(chars@, k + 1, chars@.len() as int);
                assert(chars@.take(chars@.len() as int) =~= chars@);
            }
            return None;
        }
        total = total + n;
        k += 1;
    }
    assert(chars@.take(chars@.len() as int) =~= chars@);
    Some(total)
}

/// The bytes that UTF-8 takes for `c`.
pub(crate) fn len_utf8(c: char) -> (n: usize)
    ensures
        n == char_utf8_len(c),
{
    let code = c as u32;
    if code < 0x80 {
        1
    } else if code < 0x800 {
        2
    } else if code < 0x10000 {
        3
    } else {
        4
    }
}

/// The number of characters of `line` whose UTF-8 bytes come to `b`: the
/// character boundary at byte offset `b`, if there is one.
pub open spec fn boundary_index(line: Seq<char>, b: int) -> Option<int>
    decreases line.len(),
{
    if b == 0 {
        Some(0)
    } else if b < 0 || line.len() == 0 || b < char_utf8_len(line[0]) {
        None
    } else {
        match boundary_index(line.drop_first(), b - char_utf8_len(line[0])) {
            Some(k) => Some(k + 1),
            None => None,
        }
    }
}

/// The character boundary at byte offset `b` of the line `chars[from..to]`.
pub(crate) fn find_boundary(chars: &Vec<char>, from: usize, to: usize, b: usize) -> (r: Option<usize>)
    requires
        from <= to <= chars.len(),
    ensures
        match boundary_index(chars@.subrange(from as int, to as int), b as int) {
            Some(k) => r == Some(k as usize) && 0 <= k <= to - from,
            None => r is None,
        },
{
    let ghost line = chars@.subrange(from as int, to as int);
    let mut k: usize = 0;
    let mut acc: usize = 0;
    assert(line.skip(0) =~= line);
    while from + k < to && acc < b && b - acc >= len_utf8(chars[from + k])
        invariant
            from <= to <= chars.len(),
            line == chars@.subrange(from as int, to as int),
            k <= to - from,
            acc <= b,
            boundary_index(line, b as int) == match boundary_index(
                line.skip(k as int),
                b - acc,
            ) {
                Some(j) => Some(j + k),
                None => None,
            },
        decreases to - from - k,
    {
        let n = len_utf8(chars[from + k]);
        proof {
            let rest = line.skip(k as int);
            assert(rest[0] == chars@[from + k]);
            assert(rest.drop_first() =~= line.skip(k + 1));
        }
        acc = acc + n;
        k = k + 1;
    }
    if acc == b {
        Some(k)
    } else {
        proof {
            if from + k < to {
                assert(line.skip(k as int)[0] == chars@[from + k]);
            }
        }
        None
    }
}

/// The index of the first line feed in `s`, or its length when it has none.
pub open spec fn line_end(s: Seq<char>) -> nat
    decreases s.len(),
{
    if s.len() == 0 || s[0] == '\n' {
        0
    } else {
        1 + line_end(s.drop_first())
    }
}

/// The lines of `s`: split at each line feed, the line feed left out, and a
/// carriage return right before a line feed left out too; a final line feed
/// ends the last line without starting another, and an empty text has no
/// lines.
pub open spec fn text_lines(s: Seq<char>) -> Seq<Seq<char>>
    decreases s.len(),
{
    if s.len() == 0 {
        Seq::empty()
    } else {
        let e = line_end(s) as int;
        if e >= s.len() {
            seq![s]
        } else {
            let line = if e > 0 && s[e - 1] == '\r' {
                s.take(e - 1)
            } else {
                s.take(e)
            };
            seq![line] + text_lines(s.skip(e + 1))
        }
    }
}

pub proof fn lemma_line_end_bound(s: Seq<char>)
    ensures
        line_end(s) <= s.len(),
        line_end(s) < s.len() ==> s[line_end(s) as int] == '\n',
        forall|i: int| 0 <= i < line_end(s) ==> s[i] != '\n',
    decreases s.len(),
{
    if s.len() > 0 && s[0] != '\n' {
        lemma_line_end_bound(s.drop_first());
        assert forall|i: int| 0 <= i < line_end(s) implies s[i] != '\n' by {
            if i > 0 {
                assert(s[i] == s.drop_first()[i - 1]);
            }
        }
    }
}

/// The characters of `s`, in order.
pub(crate) fn chars_of(s: &str) -> (v: Vec<char>)
    ensures
        v@ == s@,
{
    let mut v: Vec<char> = Vec::new();
    for c in it: s.chars()
        invariant
            it.seq() == s@,
            v@ == it.seq().take(it.index()),
    {
        v.push(c);
    }
    v
}

/// The line that starts at `pos` of `s` runs to the first line feed `e`
/// after it, or to the end; without the carriage return before `e`, it ends
/// at `le`; the next line starts after `e`.
pub proof fn lemma_text_lines_step(s: Seq<char>, pos: int, e: int, le: int)
    requires
        0 <= pos < s.len(),
        pos <= e <= s.len(),
        forall|i: int| pos <= i < e ==> s[i] != '\n',
        e < s.len() ==> s[e] == '\n',
        le == if e < s.len() && e > pos && s[e - 1] == '\r' {
            e - 1
        } else {
            e
        },
    ensures
        text_lines(s.skip(pos)) == seq![s.subrange(pos, le)] + text_lines(
            s.skip(
                if e < s.len() {
                    e + 1
                } else {
                    s.len() as int
                },
            ),
        ),
{
    let r = s.skip(pos);
    lemma_line_end_bound(r);
    let le_r = line_end(r) as int;
    if le_r < e - pos {
        assert(r[le_r] == s[pos + le_r]);
    }
    if le_r > e - pos {
        assert(r[e - pos] == s[e]);
    }
    assert(le_r == e - pos);
    if e < s.len() {
        assert(r.skip(e - pos + 1) =~= s.skip(e + 1));
        if e > pos {
            assert(r[e - pos - 1] == s[e - 1]);
        }
        if le < e {
            assert(s.subrange(pos, le) =~= r.take(e - pos - 1));
        } else {
            assert(s.subrange(pos, le) =~= r.take(e - pos));
        }
    } else {
        assert(s.subrange(pos, le) =~= r);
        assert(s.skip(s.len() as int) =~= Seq::<char>::empty());
        assert(seq![r] + Seq::<Seq<char>>::empty() =~= seq![r]);
    }
}

/// Each line of a text takes no more bytes than the text.
pub proof fn lemma_text_lines_utf8_len(s: Seq<char>)
    ensures
        forall|i: int|
            0 <= i < text_lines(s).len() ==> utf8_len(#[trigger] text_lines(s)[i]) <= utf8_len(s),
    decreases s.len(),
{
    if s.len() > 0 {
        let e = line_end(s) as int;
        lemma_line_end_bound(s);
        if e < s.len() {
            let rest = s.skip(e + 1);
            lemma_text_lines_utf8_len(rest);
            lemma_utf8_len_subrange(s, e + 1, s.len() as int);
            assert(rest =~= s.subrange(e + 1, s.len() as int));
            let line = if e > 0 && s[e - 1] == '\r' {
                s.take(e - 1)
            } else {
                s.take(e)
            };
            let k = if e > 0 && s[e - 1] == '\r' {
                e - 1
            } else {
                e
            };
            lemma_utf8_len_subrange(s, 0, k);
            assert(line =~= s.subrange(0, k));
            let all = text_lines(s);
            assert(all == seq![line] + text_lines(rest));
            assert forall|i: int| 0 <= i < all.len() implies utf8_len(#[trigger] all[i])
                <= utf8_len(s) by {
                if i > 0 {
                    assert(all[i] == text_lines(rest)[i - 1]);
                }
            }
        }
    }
}

/// The byte offset of a character boundary leads back to it.
pub proof fn lemma_boundary_of_prefix(line: Seq<char>, j: int)
    requires
        0 <= j <= line.len(),
    ensures
        boundary_index(line, utf8_len(line.take(j)) as int) == Some(j),
    decreases line.len(),
{
    if j == 0 {
        assert(line.take(0) =~= Seq::<char>::empty());
    } else {
        let t = line.take(j);
        assert(t[0] == line[0]);
        assert(t.drop_first() =~= line.drop_first().take(j - 1));
        lemma_boundary_of_prefix(line.drop_first(), j - 1);
    }
}

/// Displayed width of text, in columns, as `unicode_width` measures it.
pub uninterp spec fn display_width(s: Seq<char>) -> usize;

/// Calls `UnicodeWidthStr::width` of `unicode_width`, which returns the
/// displayed width of a string in columns. Its result is taken to depend on
/// the characters of the string alone; nothing more is claimed of it.
#[verifier::external_body]
pub(crate) fn str_width(s: &str) -> (w: usize)
    ensures
        w == display_width(s@),
{
    s.width()
}

/// Whether `c` has the Unicode `White_Space` property (PropList.txt).
pub open spec fn is_white_space(c: char) -> bool {
    let u = c as u32;
    ||| 0x9 <= u <= 0xD
    ||| u == 0x20
    ||| u == 0x85
    ||| u == 0xA0
    ||| u == 0x1680
    ||| 0x2000 <= u <= 0x200A
    ||| u == 0x2028
    ||| u == 0x2029
    ||| u == 0x202F
    ||| u == 0x205F
    ||| u == 0x3000
}

/// Whether `c` is white space, as `char::is_whitespace` decides it.
pub fn char_is_whitespace(c: char) -> (r: bool)
    ensures
        r == is_white_space(c),
{
    let u = c as u32;
    (0x9 <= u && u <= 0xD) || u == 0x20 || u == 0x85 || u == 0xA0 || u == 0x1680 || (0x2000 <= u
        && u <= 0x200A) || u == 0x2028 || u == 0x2029 || u == 0x202F || u == 0x205F || u == 0x3000
}

} // verus!
