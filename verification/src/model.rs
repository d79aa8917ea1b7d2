//! The mathematical model of the attribute-splitting lexer.
//!
//! The input is a finite sequence of characters.  A single left-to-right
//! scan partitions it into comma-delimited attributes, treating bracketed
//! regions, quoted regions and escape sequences as opaque: commas inside
//! them never split.  The scan is modelled here as a step function over the
//! character sequence, one character per step, with a stack of expected
//! closing brackets and an optional active quote character.

use vstd::prelude::*;

verus! {

/// The symmetric bracket-pair table: each opening bracket mapped to the
/// closing character that terminates its region.
pub open spec fn close_spec(c: char) -> Option<char> {
    if c == '(' {
        Some(')')
    } else if c == '[' {
        Some(']')
    } else if c == '{' {
        Some('}')
    } else if c == '<' {
        Some('>')
    } else {
        None
    }
}

pub open spec fn is_opener(c: char) -> bool {
    close_spec(c) is Some
}

/// The Unicode white-space characters, the set that `char::is_whitespace`
/// recognizes and `str::trim` removes.
pub open spec fn is_ws(c: char) -> bool {
    ||| c == ' '
    ||| c == '\t'
    ||| c == '\n'
    ||| c == '\r'
    ||| c == '\u{b}'
    ||| c == '\u{c}'
    ||| c == '\u{85}'
    ||| c == '\u{a0}'
    ||| c == '\u{1680}'
    ||| c == '\u{2000}'
    ||| c == '\u{2001}'
    ||| c == '\u{2002}'
    ||| c == '\u{2003}'
    ||| c == '\u{2004}'
    ||| c == '\u{2005}'
    ||| c == '\u{2006}'
    ||| c == '\u{2007}'
    ||| c == '\u{2008}'
    ||| c == '\u{2009}'
    ||| c == '\u{200a}'
    ||| c == '\u{2028}'
    ||| c == '\u{2029}'
    ||| c == '\u{202f}'
    ||| c == '\u{205f}'
    ||| c == '\u{3000}'
}

/// The character at position `i` counts as escaped when a backslash
/// immediately precedes it.
pub open spec fn escaped_at(s: Seq<char>, i: int) -> bool {
    i >= 1 && s[i - 1] == '\\'
}

/// A pipe consumed at position `p` is acceptable when some non-white-space
/// character stands between the start of the pending attribute (`mark`) and
/// the pipe: the pipe is then not the first token of the attribute.
pub open spec fn pipe_ok(s: Seq<char>, mark: int, p: int) -> bool {
    exists|q: int| mark <= q < p && !is_ws(#[trigger] s[q])
}

/// Index just past a bracketed region.  `st` is the stack of closing
/// characters still owed, innermost last.  Scanning begins at `i`, inside
/// the region; the result is the index just after the character that closes
/// the outermost owed bracket, or the end of the input if it is never
/// closed.  A `<` inside a region is tolerated (never an opener there), so
/// less-than operators do not open spurious regions.
pub open spec fn skip_region(s: Seq<char>, i: int, st: Seq<char>) -> int
    decreases s.len() - i,
{
    if i >= s.len() || st.len() == 0 {
        i
    } else {
        let c = s[i];
        if c == '<' {
            skip_region(s, i + 1, st)
        } else if is_opener(c) {
            skip_region(s, i + 1, st.push(close_spec(c).unwrap()))
        } else if c == st.last() {
            skip_region(s, i + 1, st.drop_last())
        } else {
            skip_region(s, i + 1, st)
        }
    }
}

/// Index just past a quoted region opened by quote character `q`.  Scanning
/// begins at `i`, just after the opening quote; the region closes at the
/// next unescaped occurrence of `q`, or extends to the end of the input.
pub open spec fn skip_quote(s: Seq<char>, i: int, q: char) -> int
    decreases s.len() - i,
{
    if i >= s.len() {
        i
    } else if s[i] == q && !escaped_at(s, i) {
        i + 1
    } else {
        skip_quote(s, i + 1, q)
    }
}

/// The whole scan, one character per step.
///
/// * `i` is the cursor, `mark` the start of the pending attribute.
/// * `st` is the stack of closing brackets owed; non-empty means the scan
///   is inside a bracketed region.
/// * `qt` holds the active quote character while inside a quoted region.
/// * `acc` holds the attribute spans recorded so far, as half-open
///   `(start, end)` intervals.
///
/// At a top-level comma the pending span is closed (excluding the comma);
/// at the end of the input the pending span is closed unconditionally, so a
/// trailing attribute without a final comma is still captured.  A pipe at
/// top level whose placement `pipe_ok` rejects aborts the scan with `None`.
pub open spec fn scan_all(
    s: Seq<char>,
    i: int,
    mark: int,
    st: Seq<char>,
    qt: Option<char>,
    acc: Seq<(int, int)>,
) -> Option<Seq<(int, int)>>
    decreases s.len() - i,
{
    if i >= s.len() {
        Some(acc.push((mark, s.len() as int)))
    } else {
        match qt {
            Some(q) => {
                if s[i] == q && !escaped_at(s, i) {
                    scan_all(s, i + 1, mark, st, None, acc)
                } else {
                    scan_all(s, i + 1, mark, st, qt, acc)
                }
            },
            None => {
                let c = s[i];
                if st.len() > 0 {
                    if c == '<' {
                        scan_all(s, i + 1, mark, st, qt, acc)
                    } else if is_opener(c) {
                        scan_all(s, i + 1, mark, st.push(close_spec(c).unwrap()), qt, acc)
                    } else if c == st.last() {
                        scan_all(s, i + 1, mark, st.drop_last(), qt, acc)
                    } else {
                        scan_all(s, i + 1, mark, st, qt, acc)
                    }
                } else {
                    if is_opener(c) {
                        scan_all(s, i + 1, mark, seq![close_spec(c).unwrap()], qt, acc)
                    } else if (c == '\'' || c == '"') && !escaped_at(s, i) {
                        scan_all(s, i + 1, mark, st, Some(c), acc)
                    } else if c == '|' {
                        if pipe_ok(s, mark, i) {
                            scan_all(s, i + 1, mark, st, qt, acc)
                        } else {
                            None
                        }
                    } else if c == ',' {
                        scan_all(s, i + 1, i + 1, st, qt, acc.push((mark, i)))
                    } else {
                        scan_all(s, i + 1, mark, st, qt, acc)
                    }
                }
            },
        }
    }
}

/// The attribute spans of a full scan of `s`, or `None` on a misplaced pipe.
pub open spec fn scan_spans(s: Seq<char>) -> Option<Seq<(int, int)>> {
    scan_all(s, 0, 0, Seq::empty(), None, Seq::empty())
}

/// First index at or after `i` holding a non-white-space character, or the
/// length of `s`.
pub open spec fn trim_from(s: Seq<char>, i: int) -> int
    decreases s.len() - i,
{
    if i >= s.len() {
        s.len() as int
    } else if is_ws(s[i]) {
        trim_from(s, i + 1)
    } else {
        i
    }
}

/// Least index `t <= j` such that every character in `[t, j)` is
/// white space, with a non-white-space character just before `t` (or `t == 0`).
pub open spec fn trim_upto(s: Seq<char>, j: int) -> int
    decreases j,
{
    if j <= 0 {
        0
    } else if is_ws(s[j - 1]) {
        trim_upto(s, j - 1)
    } else {
        j
    }
}

/// `s` with leading and trailing white space removed.
pub open spec fn trim(s: Seq<char>) -> Seq<char> {
    let lo = trim_from(s, 0);
    let hi = trim_upto(s, s.len() as int);
    if lo <= hi {
        s.subrange(lo, hi)
    } else {
        Seq::empty()
    }
}

/// The final result of splitting `s`: the recorded spans, materialized in
/// order and trimmed; `None` exactly when the scan rejects a pipe.
pub open spec fn split_spec(s: Seq<char>) -> Option<Seq<Seq<char>>> {
    match scan_spans(s) {
        None => None,
        Some(spans) => Some(
            Seq::new(spans.len(), |k: int| trim(s.subrange(spans[k].0, spans[k].1))),
        ),
    }
}

/// A bracket scan never moves the cursor backwards.
pub proof fn lemma_skip_region_ge(s: Seq<char>, i: int, st: Seq<char>)
    ensures
        skip_region(s, i, st) >= i,
    decreases s.len() - i,
{
    if i >= s.len() || st.len() == 0 {
    } else {
        let c = s[i];
        if c == '<' {
            lemma_skip_region_ge(s, i + 1, st);
        } else if is_opener(c) {
            lemma_skip_region_ge(s, i + 1, st.push(close_spec(c).unwrap()));
        } else if c == st.last() {
            lemma_skip_region_ge(s, i + 1, st.drop_last());
        } else {
            lemma_skip_region_ge(s, i + 1, st);
        }
    }
}

/// A quote scan never moves the cursor backwards.
pub proof fn lemma_skip_quote_ge(s: Seq<char>, i: int, q: char)
    ensures
        skip_quote(s, i, q) >= i,
    decreases s.len() - i,
{
    if i >= s.len() {
    } else if s[i] == q && !escaped_at(s, i) {
    } else {
        lemma_skip_quote_ge(s, i + 1, q);
    }
}

/// A bracket scan never moves the cursor past the end of the input.
pub proof fn lemma_skip_region_le(s: Seq<char>, i: int, st: Seq<char>)
    requires
        i <= s.len(),
    ensures
        skip_region(s, i, st) <= s.len(),
    decreases s.len() - i,
{
    if i >= s.len() || st.len() == 0 {
    } else {
        let c = s[i];
        if c == '<' {
            lemma_skip_region_le(s, i + 1, st);
        } else if is_opener(c) {
            lemma_skip_region_le(s, i + 1, st.push(close_spec(c).unwrap()));
        } else if c == st.last() {
            lemma_skip_region_le(s, i + 1, st.drop_last());
        } else {
            lemma_skip_region_le(s, i + 1, st);
        }
    }
}

/// A quote scan never moves the cursor past the end of the input.
pub proof fn lemma_skip_quote_le(s: Seq<char>, i: int, q: char)
    requires
        i <= s.len(),
    ensures
        skip_quote(s, i, q) <= s.len(),
    decreases s.len() - i,
{
    if i >= s.len() {
    } else if s[i] == q && !escaped_at(s, i) {
    } else {
        lemma_skip_quote_le(s, i + 1, q);
    }
}

/// Consuming a nested region first and then the enclosing one gives the
/// same result as consuming with the nested closer pushed on the stack.
/// This is what lets the recursive region consumer be summarized by
/// `skip_region` with a single owed closer.
pub proof fn lemma_skip_compose(s: Seq<char>, i: int, st: Seq<char>, c: char)
    ensures
        skip_region(s, i, st.push(c)) == skip_region(s, skip_region(s, i, seq![c]), st),
    decreases s.len() - i,
{
    if i >= s.len() {
        assert(skip_region(s, i, seq![c]) == i);
        assert(skip_region(s, i, st) == i);
    } else {
        let ch = s[i];
        if ch == '<' {
            lemma_skip_compose(s, i + 1, st, c);
        } else if is_opener(ch) {
            let c2 = close_spec(ch).unwrap();
            let j = skip_region(s, i + 1, seq![c2]);
            lemma_skip_region_ge(s, i + 1, seq![c2]);
            lemma_skip_region_le(s, i + 1, seq![c2]);
            lemma_skip_compose(s, i + 1, st.push(c), c2);
            lemma_skip_compose(s, j, st, c);
            lemma_skip_compose(s, i + 1, seq![c], c2);
        } else if ch == c {
            assert(st.push(c).drop_last() =~= st);
            assert(seq![c].drop_last().len() == 0);
            assert(skip_region(s, i + 1, seq![c].drop_last()) == i + 1);
            assert(skip_region(s, i, seq![c]) == i + 1);
        } else {
            lemma_skip_compose(s, i + 1, st, c);
        }
    }
}

/// Stepping the full scan through a bracketed region is the same as jumping
/// the cursor to where `skip_region` lands and returning to top level.
pub proof fn lemma_scan_region(s: Seq<char>, i: int, mark: int, st: Seq<char>, acc: Seq<(int, int)>)
    requires
        st.len() > 0,
    ensures
        scan_all(s, i, mark, st, None, acc) == scan_all(
            s,
            skip_region(s, i, st),
            mark,
            Seq::empty(),
            None,
            acc,
        ),
    decreases s.len() - i,
{
    if i >= s.len() {
    } else {
        let c = s[i];
        if c == '<' {
            lemma_scan_region(s, i + 1, mark, st, acc);
        } else if is_opener(c) {
            lemma_scan_region(s, i + 1, mark, st.push(close_spec(c).unwrap()), acc);
        } else if c == st.last() {
            if st.len() > 1 {
                lemma_scan_region(s, i + 1, mark, st.drop_last(), acc);
            } else {
                assert(st.drop_last() =~= Seq::<char>::empty());
                assert(skip_region(s, i + 1, st.drop_last()) == i + 1);
                assert(skip_region(s, i, st) == i + 1);
            }
        } else {
            lemma_scan_region(s, i + 1, mark, st, acc);
        }
    }
}

/// Stepping the full scan through a quoted region is the same as jumping
/// the cursor to where `skip_quote` lands and returning to top level.
pub proof fn lemma_scan_quote(s: Seq<char>, i: int, mark: int, q: char, acc: Seq<(int, int)>)
    ensures
        scan_all(s, i, mark, Seq::empty(), Some(q), acc) == scan_all(
            s,
            skip_quote(s, i, q),
            mark,
            Seq::empty(),
            None,
            acc,
        ),
    decreases s.len() - i,
{
    if i >= s.len() {
    } else if s[i] == q && !escaped_at(s, i) {
    } else {
        lemma_scan_quote(s, i + 1, mark, q, acc);
    }
}

/// The bracket-pair table, as executable code.
pub fn closing_of(c: char) -> (r: Option<char>)
    ensures
        r == close_spec(c),
{
    if c == '(' {
        Some(')')
    } else if c == '[' {
        Some(']')
    } else if c == '{' {
        Some('}')
    } else if c == '<' {
        Some('>')
    } else {
        None
    }
}

/// White-space recognition, as executable code.
pub fn is_ws_char(c: char) -> (r: bool)
    ensures
        r == is_ws(c),
{
    c == ' ' || c == '\t' || c == '\n' || c == '\r' || c == '\u{b}' || c == '\u{c}' || c
        == '\u{85}' || c == '\u{a0}' || c == '\u{1680}' || c == '\u{2000}' || c == '\u{2001}' || c
        == '\u{2002}' || c == '\u{2003}' || c == '\u{2004}' || c == '\u{2005}' || c == '\u{2006}'
        || c == '\u{2007}' || c == '\u{2008}' || c == '\u{2009}' || c == '\u{200a}' || c
        == '\u{2028}' || c == '\u{2029}' || c == '\u{202f}' || c == '\u{205f}' || c == '\u{3000}'
}

} // verus!
